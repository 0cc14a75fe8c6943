//! Polynomials over the scalar field, shares, and Lagrange interpolation.
//!
//! A degree-`t` polynomial with secret constant term is evaluated at
//! `x = 1..n` to produce shares; any selection of shares can be recombined
//! by Lagrange interpolation at `x = 0`.  Every operation also exists on
//! "point" values, where a share or a coefficient has been lifted into the
//! exponent of the source group.

use vstd::prelude::*;
use crate::Error;
use crate::algebra::{fadd, fsub, fmul, poly_eval, field_r, cong};
use crate::primitives::{Scalar, G1Elem, inv_of, rnd_scalar};
use crate::primitives::{lemma_scalar_valid, lemma_g1_valid};

verus! {

/// The field values of a sequence of scalars.
pub open spec fn scalar_vals(s: Seq<Scalar>) -> Seq<nat> {
    s.map(|j: int, x: Scalar| x.v())
}

/// The discrete logarithms of a sequence of points.
pub open spec fn g1_vals(s: Seq<G1Elem>) -> Seq<nat> {
    s.map(|j: int, x: G1Elem| x.v())
}

/// The evaluation points of a sequence of shares.
pub open spec fn share_range(s: Seq<Share>) -> Seq<nat> {
    s.map(|j: int, sh: Share| sh.i as nat)
}

/// The share values of a sequence of shares.
pub open spec fn share_vals(s: Seq<Share>) -> Seq<nat> {
    s.map(|j: int, sh: Share| sh.yi.v())
}

/// The evaluation points of a sequence of point shares.
pub open spec fn pshare_range(s: Seq<PointShare>) -> Seq<nat> {
    s.map(|j: int, sh: PointShare| sh.i as nat)
}

/// The discrete logarithms of a sequence of point shares.
pub open spec fn pshare_vals(s: Seq<PointShare>) -> Seq<nat> {
    s.map(|j: int, sh: PointShare| sh.Yi.v())
}

/// Partial Lagrange numerator for node `i`: the product of the first `n`
/// evaluation points, the one at position `i` excluded.
pub open spec fn lag_num_upto(range: Seq<nat>, i: int, n: int) -> nat
    decreases n,
{
    if n <= 0 {
        1
    } else if n - 1 == i {
        lag_num_upto(range, i, n - 1)
    } else {
        fmul(lag_num_upto(range, i, n - 1), range[n - 1])
    }
}

/// Lagrange numerator for node `i` over the whole range.
pub open spec fn lag_num(range: Seq<nat>, i: int) -> nat {
    lag_num_upto(range, i, range.len() as int)
}

/// Partial Lagrange denominator for node `i`: the product of
/// `range[j] - range[i]` over the first `n` positions, `i` excluded.
pub open spec fn lag_den_upto(range: Seq<nat>, i: int, n: int) -> nat
    decreases n,
{
    if n <= 0 {
        1
    } else if n - 1 == i {
        lag_den_upto(range, i, n - 1)
    } else {
        fmul(lag_den_upto(range, i, n - 1), fsub(range[n - 1], range[i]))
    }
}

/// Lagrange denominator for node `i` over the whole range.
pub open spec fn lag_den(range: Seq<nat>, i: int) -> nat {
    lag_den_upto(range, i, range.len() as int)
}

/// The Lagrange basis coefficient of node `i` for interpolation at `x = 0`:
/// numerator times the inverse of the denominator.
pub open spec fn lag_w(range: Seq<nat>, i: int) -> nat {
    fmul(lag_num(range, i), inv_of(lag_den(range, i)))
}

/// Partial interpolation sum: the weighted sum of the first `n` values.
pub open spec fn interp_upto(range: Seq<nat>, vals: Seq<nat>, n: int) -> nat
    decreases n,
{
    if n <= 0 {
        0
    } else {
        fadd(interp_upto(range, vals, n - 1), fmul(lag_w(range, n - 1), vals[n - 1]))
    }
}

/// The Lagrange interpolation at `x = 0` of `vals` sampled at `range`.
pub open spec fn interp(range: Seq<nat>, vals: Seq<nat>) -> nat {
    interp_upto(range, vals, vals.len() as int)
}

/// Recombination of shares into the value they share.
pub trait Interpolate {
    type Output;

    /// Interpolates the shared value at `x = 0`.
    fn interpolate(&self) -> Self::Output;
}

/// Recovery of a whole committed polynomial from point shares.
pub trait Reconstruct {
    type Output;

    /// Rebuilds every coefficient, not just the value at `x = 0`.
    fn reconstruct(&self) -> Self::Output;
}

/// Evaluation of a polynomial at a point.
pub trait Evaluate {
    type Output;

    /// Whether the value can be evaluated (a polynomial needs at least one
    /// coefficient).
    spec fn can_evaluate(&self) -> bool;

    /// Evaluates at `x` by Horner's rule.
    fn evaluate(&self, x: Scalar) -> Self::Output
        requires
            self.can_evaluate(),
    ;
}

/// The degree of a polynomial.
pub trait Degree {
    /// Whether the degree is defined (at least one coefficient).
    spec fn has_degree(&self) -> bool;

    /// The degree: one less than the number of coefficients.
    fn degree(&self) -> usize
        requires
            self.has_degree(),
    ;
}

/// A share: the polynomial evaluated at `x = i`.
#[derive(Clone, Copy, Debug)]
pub struct Share {
    pub i: u32,
    pub yi: Scalar,
}

impl Share {
    /// Adds two shares of the same node; fails on mismatched indices.
    pub fn add(&self, rhs: &Share) -> (r: Result<Share, Error>)
        ensures
            match r {
                Ok(s) => self.i == rhs.i && s.i == self.i
                    && s.yi.v() == fadd(self.yi.v(), rhs.yi.v()),
                Err(e) => self.i != rhs.i && e == Error::IndexMismatch,
            },
    {
        if self.i != rhs.i {
            return Err(Error::IndexMismatch);
        }
        Ok(Share { i: self.i, yi: self.yi.add(&rhs.yi) })
    }

    /// Subtracts two shares of the same node; fails on mismatched indices.
    pub fn sub(&self, rhs: &Share) -> (r: Result<Share, Error>)
        ensures
            match r {
                Ok(s) => self.i == rhs.i && s.i == self.i
                    && s.yi.v() == fsub(self.yi.v(), rhs.yi.v()),
                Err(e) => self.i != rhs.i && e == Error::IndexMismatch,
            },
    {
        if self.i != rhs.i {
            return Err(Error::IndexMismatch);
        }
        Ok(Share { i: self.i, yi: self.yi.sub(&rhs.yi) })
    }

    /// Adds a scalar to the share value.
    pub fn add_scalar(&self, rhs: &Scalar) -> (r: Share)
        ensures
            r.i == self.i,
            r.yi.v() == fadd(self.yi.v(), rhs.v()),
    {
        Share { i: self.i, yi: self.yi.add(rhs) }
    }

    /// Subtracts a scalar from the share value.
    pub fn sub_scalar(&self, rhs: &Scalar) -> (r: Share)
        ensures
            r.i == self.i,
            r.yi.v() == fsub(self.yi.v(), rhs.v()),
    {
        Share { i: self.i, yi: self.yi.sub(rhs) }
    }

    /// Scales the share value.
    pub fn mul(&self, rhs: &Scalar) -> (r: Share)
        ensures
            r.i == self.i,
            r.yi.v() == fmul(self.yi.v(), rhs.v()),
    {
        Share { i: self.i, yi: self.yi.mul(rhs) }
    }

    /// Lifts the share into the exponent of the source group: `yi · G`.
    pub fn lift(&self, g: &G1Elem) -> (r: PointShare)
        ensures
            r.i == self.i,
            r.Yi.v() == fmul(g.v(), self.yi.v()),
    {
        PointShare { i: self.i, Yi: g.mul(&self.yi) }
    }
}

/// A share lifted into the exponent: `(i, yi · G)`.
#[derive(Clone, Copy, Debug)]
pub struct PointShare {
    pub i: u32,
    pub Yi: G1Elem,
}

impl PointShare {
    /// Adds two point shares of the same node; fails on mismatched indices.
    pub fn add(&self, rhs: &PointShare) -> (r: Result<PointShare, Error>)
        ensures
            match r {
                Ok(s) => self.i == rhs.i && s.i == self.i
                    && s.Yi.v() == fadd(self.Yi.v(), rhs.Yi.v()),
                Err(e) => self.i != rhs.i && e == Error::IndexMismatch,
            },
    {
        if self.i != rhs.i {
            return Err(Error::IndexMismatch);
        }
        Ok(PointShare { i: self.i, Yi: self.Yi.add(&rhs.Yi) })
    }

    /// Subtracts two point shares of the same node; fails on mismatched
    /// indices.
    pub fn sub(&self, rhs: &PointShare) -> (r: Result<PointShare, Error>)
        ensures
            match r {
                Ok(s) => self.i == rhs.i && s.i == self.i
                    && s.Yi.v() == fsub(self.Yi.v(), rhs.Yi.v()),
                Err(e) => self.i != rhs.i && e == Error::IndexMismatch,
            },
    {
        if self.i != rhs.i {
            return Err(Error::IndexMismatch);
        }
        Ok(PointShare { i: self.i, Yi: self.Yi.sub(&rhs.Yi) })
    }

    /// Adds a fixed point to the share's point.
    pub fn add_point(&self, rhs: &G1Elem) -> (r: PointShare)
        ensures
            r.i == self.i,
            r.Yi.v() == fadd(self.Yi.v(), rhs.v()),
    {
        PointShare { i: self.i, Yi: self.Yi.add(rhs) }
    }

    /// Subtracts a fixed point from the share's point.
    pub fn sub_point(&self, rhs: &G1Elem) -> (r: PointShare)
        ensures
            r.i == self.i,
            r.Yi.v() == fsub(self.Yi.v(), rhs.v()),
    {
        PointShare { i: self.i, Yi: self.Yi.sub(rhs) }
    }

    /// Scales the share's point.
    pub fn mul(&self, rhs: &Scalar) -> (r: PointShare)
        ensures
            r.i == self.i,
            r.Yi.v() == fmul(self.Yi.v(), rhs.v()),
    {
        PointShare { i: self.i, Yi: self.Yi.mul(rhs) }
    }
}

/// A polynomial over the scalar field, constant term first.  The constant
/// term is the shared secret; wipe the coefficients once shares are dealt.
#[derive(Clone, Debug)]
pub struct Polynomial(pub Vec<Scalar>);

impl Polynomial {
    /// A random polynomial with constant term `secret` and `degree`
    /// independently random higher coefficients.
    pub fn rnd(secret: Scalar, degree: usize) -> (r: Polynomial)
        requires
            degree < usize::MAX,
        ensures
            r.0@.len() == degree + 1,
            r.0@[0] == secret,
            forall|j: int| 0 <= j < r.0@.len() ==> (#[trigger] r.0@[j]).v() < field_r(),
    {
        proof {
            use_type_invariant(&secret);
            lemma_scalar_valid(secret);
        }
        let mut coefs: Vec<Scalar> = Vec::new();
        coefs.push(secret);
        let mut k: usize = 0;
        while k < degree
            invariant
                k <= degree,
                coefs@.len() == k + 1,
                coefs@[0] == secret,
                forall|j: int| 0 <= j < coefs@.len() ==> (#[trigger] coefs@[j]).v() < field_r(),
            decreases degree - k,
        {
            coefs.push(rnd_scalar());
            k += 1;
        }
        Polynomial(coefs)
    }

    /// The Lagrange basis coefficient of node `i` for the ordered evaluation
    /// points `range`, for interpolation at `x = 0`.  Fails exactly when the
    /// denominator product vanishes, which happens when `range` holds
    /// duplicate values.
    pub fn l_i(range: &[Scalar], i: usize) -> (r: Result<Scalar, Error>)
        requires
            i < range@.len(),
        ensures
            match r {
                Ok(w) => w.v() == lag_w(scalar_vals(range@), i as int)
                    && lag_den(scalar_vals(range@), i as int) != 0
                    && fmul(
                        inv_of(lag_den(scalar_vals(range@), i as int)),
                        lag_den(scalar_vals(range@), i as int),
                    ) == 1,
                Err(e) => e == Error::DegenerateInterpolation
                    && lag_den(scalar_vals(range@), i as int) == 0,
            },
    {
        let mut num = Scalar::from_u64(1);
        let mut denum = Scalar::from_u64(1);
        let mut j: usize = 0;
        while j < range.len()
            invariant
                i < range@.len(),
                j <= range@.len(),
                num.v() == lag_num_upto(scalar_vals(range@), i as int, j as int),
                denum.v() == lag_den_upto(scalar_vals(range@), i as int, j as int),
            decreases range@.len() - j,
        {
            if j != i {
                num = num.mul(&range[j]);
                denum = denum.mul(&range[j].sub(&range[i]));
            }
            j += 1;
        }
        match denum.invert() {
            Some(winv) => Ok(num.mul(&winv)),
            None => Err(Error::DegenerateInterpolation),
        }
    }

    /// Deals `n` shares by evaluating the polynomial at `x = 1..n`.
    pub fn shares(&self, n: usize) -> (r: ShareVector)
        requires
            self.0@.len() >= 1,
            n <= u32::MAX,
        ensures
            r.0@.len() == n,
            forall|j: int| 0 <= j < n ==> (#[trigger] r.0@[j]).i == j + 1,
            forall|j: int| 0 <= j < n ==> (#[trigger] r.0@[j]).yi.v()
                == poly_eval(scalar_vals(self.0@), (j + 1) as nat),
    {
        let mut out: Vec<Share> = Vec::new();
        let mut j: usize = 0;
        while j < n
            invariant
                j <= n,
                n <= u32::MAX,
                self.0@.len() >= 1,
                out@.len() == j,
                forall|k: int| 0 <= k < j ==> (#[trigger] out@[k]).i == k + 1,
                forall|k: int| 0 <= k < j ==> (#[trigger] out@[k]).yi.v()
                    == poly_eval(scalar_vals(self.0@), (k + 1) as nat),
            decreases n - j,
        {
            let x = Scalar::from_u64((j + 1) as u64);
            let share = Share { i: (j + 1) as u32, yi: self.evaluate(x) };
            out.push(share);
            j += 1;
        }
        ShareVector(out)
    }

    /// Adds two polynomials coefficient-wise over the common length.
    pub fn add(&self, rhs: &Polynomial) -> (r: Polynomial)
        ensures
            r.0@.len() == min_len(self.0@.len() as int, rhs.0@.len() as int),
            forall|k: int| 0 <= k < r.0@.len() ==> (#[trigger] r.0@[k]).v()
                == fadd(self.0@[k].v(), rhs.0@[k].v()),
    {
        let n = if self.0.len() < rhs.0.len() { self.0.len() } else { rhs.0.len() };
        let mut out: Vec<Scalar> = Vec::new();
        let mut k: usize = 0;
        while k < n
            invariant
                k <= n,
                n == min_len(self.0@.len() as int, rhs.0@.len() as int),
                out@.len() == k,
                forall|m: int| 0 <= m < k ==> (#[trigger] out@[m]).v()
                    == fadd(self.0@[m].v(), rhs.0@[m].v()),
            decreases n - k,
        {
            out.push(self.0[k].add(&rhs.0[k]));
            k += 1;
        }
        Polynomial(out)
    }

    /// Subtracts two polynomials coefficient-wise over the common length.
    pub fn sub(&self, rhs: &Polynomial) -> (r: Polynomial)
        ensures
            r.0@.len() == min_len(self.0@.len() as int, rhs.0@.len() as int),
            forall|k: int| 0 <= k < r.0@.len() ==> (#[trigger] r.0@[k]).v()
                == fsub(self.0@[k].v(), rhs.0@[k].v()),
    {
        let n = if self.0.len() < rhs.0.len() { self.0.len() } else { rhs.0.len() };
        let mut out: Vec<Scalar> = Vec::new();
        let mut k: usize = 0;
        while k < n
            invariant
                k <= n,
                n == min_len(self.0@.len() as int, rhs.0@.len() as int),
                out@.len() == k,
                forall|m: int| 0 <= m < k ==> (#[trigger] out@[m]).v()
                    == fsub(self.0@[m].v(), rhs.0@[m].v()),
            decreases n - k,
        {
            out.push(self.0[k].sub(&rhs.0[k]));
            k += 1;
        }
        Polynomial(out)
    }

    /// Scales every coefficient.
    pub fn mul(&self, rhs: &Scalar) -> (r: Polynomial)
        ensures
            r.0@.len() == self.0@.len(),
            forall|k: int| 0 <= k < r.0@.len() ==> (#[trigger] r.0@[k]).v()
                == fmul(self.0@[k].v(), rhs.v()),
    {
        let mut out: Vec<Scalar> = Vec::new();
        let mut k: usize = 0;
        while k < self.0.len()
            invariant
                k <= self.0@.len(),
                out@.len() == k,
                forall|m: int| 0 <= m < k ==> (#[trigger] out@[m]).v()
                    == fmul(self.0@[m].v(), rhs.v()),
            decreases self.0@.len() - k,
        {
            out.push(self.0[k].mul(rhs));
            k += 1;
        }
        Polynomial(out)
    }

    /// Lifts every coefficient into the exponent of the source group,
    /// producing the committed polynomial `ak · G`.
    pub fn lift(&self, g: &G1Elem) -> (r: PointPolynomial)
        ensures
            r.0@.len() == self.0@.len(),
            forall|k: int| 0 <= k < r.0@.len() ==> (#[trigger] r.0@[k]).v()
                == fmul(g.v(), self.0@[k].v()),
    {
        let mut out: Vec<G1Elem> = Vec::new();
        let mut k: usize = 0;
        while k < self.0.len()
            invariant
                k <= self.0@.len(),
                out@.len() == k,
                forall|m: int| 0 <= m < k ==> (#[trigger] out@[m]).v()
                    == fmul(g.v(), self.0@[m].v()),
            decreases self.0@.len() - k,
        {
            out.push(g.mul(&self.0[k]));
            k += 1;
        }
        PointPolynomial(out)
    }

    /// Overwrites every coefficient with zero so the secret does not linger.
    pub fn wipe(&mut self)
        ensures
            final(self).0@.len() == old(self).0@.len(),
            forall|k: int| 0 <= k < final(self).0@.len()
                ==> (#[trigger] final(self).0@[k]).v() == 0,
    {
        let mut k: usize = 0;
        while k < self.0.len()
            invariant
                k <= self.0@.len(),
                self.0@.len() == old(self).0@.len(),
                forall|m: int| 0 <= m < k ==> (#[trigger] self.0@[m]).v() == 0,
            decreases self.0@.len() - k,
        {
            self.0[k].wipe();
            k += 1;
        }
    }
}

/// The smaller of two lengths.
pub open spec fn min_len(a: int, b: int) -> int {
    if a < b {
        a
    } else {
        b
    }
}

impl Evaluate for Polynomial {
    type Output = Scalar;

    open spec fn can_evaluate(&self) -> bool {
        self.0@.len() >= 1
    }

    /// Horner's rule, from the highest coefficient down.
    fn evaluate(&self, x: Scalar) -> (r: Scalar)
        ensures
            r.v() == poly_eval(scalar_vals(self.0@), x.v()),
    {
        let n = self.0.len();
        let mut k: usize = n - 1;
        let mut acc = self.0[k];
        proof {
            use_type_invariant(&acc);
            lemma_scalar_valid(acc);
            assert(scalar_vals(self.0@).subrange(n - 1, n as int).drop_first()
                =~= scalar_vals(self.0@).subrange(n as int, n as int));
            assert(poly_eval(scalar_vals(self.0@).subrange(n as int, n as int), x.v()) == 0);
            assert(x.v() * 0 == 0);
            assert(fmul(x.v(), 0) == 0);
            assert(fadd(acc.v(), 0) == acc.v()) by {
                vstd::arithmetic::div_mod::lemma_small_mod(acc.v(), field_r());
            }
            assert(scalar_vals(self.0@).subrange(n - 1, n as int)[0] == acc.v());
        }
        while k > 0
            invariant
                k < n,
                n == self.0@.len(),
                acc.v() == poly_eval(scalar_vals(self.0@).subrange(k as int, n as int), x.v()),
            decreases k,
        {
            k = k - 1;
            acc = acc.mul(&x).add(&self.0[k]);
            proof {
                crate::algebra::lemma_fmul_comm(
                    poly_eval(scalar_vals(self.0@).subrange(k + 1, n as int), x.v()),
                    x.v(),
                );
                assert(scalar_vals(self.0@).subrange(k as int, n as int).drop_first()
                    =~= scalar_vals(self.0@).subrange(k + 1, n as int));
            }
        }
        proof {
            assert(scalar_vals(self.0@).subrange(0, n as int) =~= scalar_vals(self.0@));
        }
        acc
    }
}

impl Degree for Polynomial {
    open spec fn has_degree(&self) -> bool {
        self.0@.len() >= 1
    }

    fn degree(&self) -> (r: usize)
        ensures
            r == self.0@.len() - 1,
    {
        self.0.len() - 1
    }
}

/// A polynomial whose coefficients live in the exponent of the source group:
/// the public commitment to a scalar polynomial.
#[derive(Clone, Debug)]
pub struct PointPolynomial(pub Vec<G1Elem>);

impl PointPolynomial {
    /// Adds two committed polynomials coefficient-wise over the common
    /// length.
    pub fn add(&self, rhs: &PointPolynomial) -> (r: PointPolynomial)
        ensures
            r.0@.len() == min_len(self.0@.len() as int, rhs.0@.len() as int),
            forall|k: int| 0 <= k < r.0@.len() ==> (#[trigger] r.0@[k]).v()
                == fadd(self.0@[k].v(), rhs.0@[k].v()),
    {
        let n = if self.0.len() < rhs.0.len() { self.0.len() } else { rhs.0.len() };
        let mut out: Vec<G1Elem> = Vec::new();
        let mut k: usize = 0;
        while k < n
            invariant
                k <= n,
                n == min_len(self.0@.len() as int, rhs.0@.len() as int),
                out@.len() == k,
                forall|m: int| 0 <= m < k ==> (#[trigger] out@[m]).v()
                    == fadd(self.0@[m].v(), rhs.0@[m].v()),
            decreases n - k,
        {
            out.push(self.0[k].add(&rhs.0[k]));
            k += 1;
        }
        PointPolynomial(out)
    }

    /// Subtracts two committed polynomials coefficient-wise over the
    /// common length.
    pub fn sub(&self, rhs: &PointPolynomial) -> (r: PointPolynomial)
        ensures
            r.0@.len() == min_len(self.0@.len() as int, rhs.0@.len() as int),
            forall|k: int| 0 <= k < r.0@.len() ==> (#[trigger] r.0@[k]).v()
                == fsub(self.0@[k].v(), rhs.0@[k].v()),
    {
        let n = if self.0.len() < rhs.0.len() { self.0.len() } else { rhs.0.len() };
        let mut out: Vec<G1Elem> = Vec::new();
        let mut k: usize = 0;
        while k < n
            invariant
                k <= n,
                n == min_len(self.0@.len() as int, rhs.0@.len() as int),
                out@.len() == k,
                forall|m: int| 0 <= m < k ==> (#[trigger] out@[m]).v()
                    == fsub(self.0@[m].v(), rhs.0@[m].v()),
            decreases n - k,
        {
            out.push(self.0[k].sub(&rhs.0[k]));
            k += 1;
        }
        PointPolynomial(out)
    }

    /// Scales every committed coefficient.
    pub fn mul(&self, rhs: &Scalar) -> (r: PointPolynomial)
        ensures
            r.0@.len() == self.0@.len(),
            forall|k: int| 0 <= k < r.0@.len() ==> (#[trigger] r.0@[k]).v()
                == fmul(self.0@[k].v(), rhs.v()),
    {
        let mut out: Vec<G1Elem> = Vec::new();
        let mut k: usize = 0;
        while k < self.0.len()
            invariant
                k <= self.0@.len(),
                out@.len() == k,
                forall|m: int| 0 <= m < k ==> (#[trigger] out@[m]).v()
                    == fmul(self.0@[m].v(), rhs.v()),
            decreases self.0@.len() - k,
        {
            out.push(self.0[k].mul(rhs));
            k += 1;
        }
        PointPolynomial(out)
    }

    /// Accepts a point share exactly when its point is the committed
    /// polynomial evaluated at the share's own index.
    pub fn verify(&self, share: &PointShare) -> (r: bool)
        requires
            self.0@.len() >= 1,
        ensures
            r == (share.Yi.v() == poly_eval(g1_vals(self.0@), share.i as nat)),
    {
        let x = Scalar::from_u64(share.i as u64);
        share.Yi.equals(&self.evaluate(x))
    }
}

impl Evaluate for PointPolynomial {
    type Output = G1Elem;

    open spec fn can_evaluate(&self) -> bool {
        self.0@.len() >= 1
    }

    /// Horner's rule in the exponent.
    fn evaluate(&self, x: Scalar) -> (r: G1Elem)
        ensures
            r.v() == poly_eval(g1_vals(self.0@), x.v()),
    {
        let n = self.0.len();
        let mut k: usize = n - 1;
        let mut acc = self.0[k];
        proof {
            use_type_invariant(&acc);
            lemma_g1_valid(acc);
            assert(g1_vals(self.0@).subrange(n - 1, n as int).drop_first()
                =~= g1_vals(self.0@).subrange(n as int, n as int));
            assert(poly_eval(g1_vals(self.0@).subrange(n as int, n as int), x.v()) == 0);
            assert(x.v() * 0 == 0);
            assert(fmul(x.v(), 0) == 0);
            assert(fadd(acc.v(), 0) == acc.v()) by {
                vstd::arithmetic::div_mod::lemma_small_mod(acc.v(), field_r());
            }
            assert(g1_vals(self.0@).subrange(n - 1, n as int)[0] == acc.v());
        }
        while k > 0
            invariant
                k < n,
                n == self.0@.len(),
                acc.v() == poly_eval(g1_vals(self.0@).subrange(k as int, n as int), x.v()),
            decreases k,
        {
            k = k - 1;
            acc = acc.mul(&x).add(&self.0[k]);
            proof {
                crate::algebra::lemma_fmul_comm(
                    poly_eval(g1_vals(self.0@).subrange(k + 1, n as int), x.v()),
                    x.v(),
                );
                assert(g1_vals(self.0@).subrange(k as int, n as int).drop_first()
                    =~= g1_vals(self.0@).subrange(k + 1, n as int));
            }
        }
        proof {
            assert(g1_vals(self.0@).subrange(0, n as int) =~= g1_vals(self.0@));
        }
        acc
    }
}

impl Degree for PointPolynomial {
    open spec fn has_degree(&self) -> bool {
        self.0@.len() >= 1
    }

    fn degree(&self) -> (r: usize)
        ensures
            r == self.0@.len() - 1,
    {
        self.0.len() - 1
    }
}

/// An ordered collection of shares.
#[derive(Clone, Debug)]
pub struct ShareVector(pub Vec<Share>);

impl ShareVector {
    /// Adds two share vectors pairwise over the common length; every pair
    /// must carry the same index.
    #[verifier::rlimit(30)]
    pub fn add(&self, rhs: &ShareVector) -> (r: Result<ShareVector, Error>)
        ensures
            match r {
                Ok(v) => v.0@.len() == min_len(self.0@.len() as int, rhs.0@.len() as int)
                    && (forall|k: int| 0 <= k < v.0@.len()
                        ==> (#[trigger] v.0@[k]).i == self.0@[k].i
                            && self.0@[k].i == rhs.0@[k].i
                            && v.0@[k].yi.v() == fadd(self.0@[k].yi.v(), rhs.0@[k].yi.v())),
                Err(e) => e == Error::IndexMismatch
                    && exists|k: int| 0 <= k < min_len(self.0@.len() as int, rhs.0@.len() as int)
                        && (#[trigger] self.0@[k]).i != rhs.0@[k].i,
            },
    {
        let n = if self.0.len() < rhs.0.len() { self.0.len() } else { rhs.0.len() };
        let mut out: Vec<Share> = Vec::new();
        let mut k: usize = 0;
        while k < n
            invariant
                k <= n,
                n == min_len(self.0@.len() as int, rhs.0@.len() as int),
                out@.len() == k,
                forall|m: int| 0 <= m < k ==> (#[trigger] out@[m]).i == self.0@[m].i
                    && self.0@[m].i == rhs.0@[m].i
                    && out@[m].yi.v() == fadd(self.0@[m].yi.v(), rhs.0@[m].yi.v()),
            decreases n - k,
        {
            match self.0[k].add(&rhs.0[k]) {
                Ok(s) => out.push(s),
                Err(e) => {
                    return Err(e);
                },
            }
            k += 1;
        }
        let result = ShareVector(out);
        proof {
            assert(result.0@.len() == min_len(self.0@.len() as int, rhs.0@.len() as int));
            assert(forall|m: int| 0 <= m < result.0@.len()
                ==> (#[trigger] result.0@[m]).i == self.0@[m].i
                    && self.0@[m].i == rhs.0@[m].i
                    && result.0@[m].yi.v() == fadd(self.0@[m].yi.v(), rhs.0@[m].yi.v()));
        }
        Ok(result)
    }

    /// Subtracts two share vectors pairwise over the common length; every
    /// pair must carry the same index.
    #[verifier::rlimit(30)]
    pub fn sub(&self, rhs: &ShareVector) -> (r: Result<ShareVector, Error>)
        ensures
            match r {
                Ok(v) => v.0@.len() == min_len(self.0@.len() as int, rhs.0@.len() as int)
                    && (forall|k: int| 0 <= k < v.0@.len()
                        ==> (#[trigger] v.0@[k]).i == self.0@[k].i
                            && self.0@[k].i == rhs.0@[k].i
                            && v.0@[k].yi.v() == fsub(self.0@[k].yi.v(), rhs.0@[k].yi.v())),
                Err(e) => e == Error::IndexMismatch
                    && exists|k: int| 0 <= k < min_len(self.0@.len() as int, rhs.0@.len() as int)
                        && (#[trigger] self.0@[k]).i != rhs.0@[k].i,
            },
    {
        let n = if self.0.len() < rhs.0.len() { self.0.len() } else { rhs.0.len() };
        let mut out: Vec<Share> = Vec::new();
        let mut k: usize = 0;
        while k < n
            invariant
                k <= n,
                n == min_len(self.0@.len() as int, rhs.0@.len() as int),
                out@.len() == k,
                forall|m: int| 0 <= m < k ==> (#[trigger] out@[m]).i == self.0@[m].i
                    && self.0@[m].i == rhs.0@[m].i
                    && out@[m].yi.v() == fsub(self.0@[m].yi.v(), rhs.0@[m].yi.v()),
            decreases n - k,
        {
            match self.0[k].sub(&rhs.0[k]) {
                Ok(s) => out.push(s),
                Err(e) => {
                    return Err(e);
                },
            }
            k += 1;
        }
        let result = ShareVector(out);
        proof {
            assert(result.0@.len() == min_len(self.0@.len() as int, rhs.0@.len() as int));
            assert(forall|m: int| 0 <= m < result.0@.len()
                ==> (#[trigger] result.0@[m]).i == self.0@[m].i
                    && self.0@[m].i == rhs.0@[m].i
                    && result.0@[m].yi.v() == fsub(self.0@[m].yi.v(), rhs.0@[m].yi.v()));
        }
        Ok(result)
    }

    /// Adds a scalar to every share value.
    pub fn add_scalar(&self, rhs: &Scalar) -> (r: ShareVector)
        ensures
            r.0@.len() == self.0@.len(),
            forall|k: int| 0 <= k < r.0@.len() ==> (#[trigger] r.0@[k]).i == self.0@[k].i
                && r.0@[k].yi.v() == fadd(self.0@[k].yi.v(), rhs.v()),
    {
        let mut out: Vec<Share> = Vec::new();
        let mut k: usize = 0;
        while k < self.0.len()
            invariant
                k <= self.0@.len(),
                out@.len() == k,
                forall|m: int| 0 <= m < k ==> (#[trigger] out@[m]).i == self.0@[m].i
                    && out@[m].yi.v() == fadd(self.0@[m].yi.v(), rhs.v()),
            decreases self.0@.len() - k,
        {
            out.push(self.0[k].add_scalar(rhs));
            k += 1;
        }
        ShareVector(out)
    }

    /// Scales every share value.
    pub fn mul(&self, rhs: &Scalar) -> (r: ShareVector)
        ensures
            r.0@.len() == self.0@.len(),
            forall|k: int| 0 <= k < r.0@.len() ==> (#[trigger] r.0@[k]).i == self.0@[k].i
                && r.0@[k].yi.v() == fmul(self.0@[k].yi.v(), rhs.v()),
    {
        let mut out: Vec<Share> = Vec::new();
        let mut k: usize = 0;
        while k < self.0.len()
            invariant
                k <= self.0@.len(),
                out@.len() == k,
                forall|m: int| 0 <= m < k ==> (#[trigger] out@[m]).i == self.0@[m].i
                    && out@[m].yi.v() == fmul(self.0@[m].yi.v(), rhs.v()),
            decreases self.0@.len() - k,
        {
            out.push(self.0[k].mul(rhs));
            k += 1;
        }
        ShareVector(out)
    }

    /// Lifts every share into the exponent of the source group.
    pub fn lift(&self, g: &G1Elem) -> (r: PointShareVector)
        ensures
            r.0@.len() == self.0@.len(),
            forall|k: int| 0 <= k < r.0@.len() ==> (#[trigger] r.0@[k]).i == self.0@[k].i
                && r.0@[k].Yi.v() == fmul(g.v(), self.0@[k].yi.v()),
    {
        let mut out: Vec<PointShare> = Vec::new();
        let mut k: usize = 0;
        while k < self.0.len()
            invariant
                k <= self.0@.len(),
                out@.len() == k,
                forall|m: int| 0 <= m < k ==> (#[trigger] out@[m]).i == self.0@[m].i
                    && out@[m].Yi.v() == fmul(g.v(), self.0@[m].yi.v()),
            decreases self.0@.len() - k,
        {
            out.push(self.0[k].lift(g));
            k += 1;
        }
        PointShareVector(out)
    }

    /// Overwrites every share value with zero.
    pub fn wipe(&mut self)
        ensures
            final(self).0@.len() == old(self).0@.len(),
            forall|k: int| 0 <= k < final(self).0@.len()
                ==> (#[trigger] final(self).0@[k]).yi.v() == 0,
    {
        let mut k: usize = 0;
        while k < self.0.len()
            invariant
                k <= self.0@.len(),
                self.0@.len() == old(self).0@.len(),
                forall|m: int| 0 <= m < k ==> (#[trigger] self.0@[m]).yi.v() == 0,
            decreases self.0@.len() - k,
        {
            self.0[k].yi.wipe();
            k += 1;
        }
    }
}

impl Interpolate for ShareVector {
    type Output = Result<Scalar, Error>;

    /// The weighted sum of the share values with the Lagrange basis
    /// coefficients of the shares' own indices; the value of the shared
    /// polynomial at `x = 0`.  Fails exactly when a Lagrange denominator
    /// vanishes, which happens when two shares carry the same index.
    fn interpolate(&self) -> (r: Result<Scalar, Error>)
        ensures
            match r {
                Ok(v) => v.v() == interp(share_range(self.0@), share_vals(self.0@))
                    && forall|i: int| 0 <= i < self.0@.len()
                        ==> lag_den(share_range(self.0@), i) != 0
                            && fmul(
                                inv_of(#[trigger] lag_den(share_range(self.0@), i)),
                                lag_den(share_range(self.0@), i),
                            ) == 1,
                Err(e) => e == Error::DegenerateInterpolation
                    && exists|i: int| 0 <= i < self.0@.len()
                        && lag_den(share_range(self.0@), i) == 0,
            },
    {
        let ghost rng = share_range(self.0@);
        let ghost vals = share_vals(self.0@);
        let mut range: Vec<Scalar> = Vec::new();
        let mut k: usize = 0;
        while k < self.0.len()
            invariant
                k <= self.0@.len(),
                range@.len() == k,
                forall|m: int| 0 <= m < k ==> (#[trigger] range@[m]).v()
                    == share_range(self.0@)[m],
            decreases self.0@.len() - k,
        {
            range.push(Scalar::from_u64(self.0[k].i as u64));
            k += 1;
        }
        proof {
            assert(scalar_vals(range@) =~= rng);
        }
        let mut acc = Scalar::from_u64(0);
        let mut i: usize = 0;
        while i < self.0.len()
            invariant
                i <= self.0@.len(),
                range@.len() == self.0@.len(),
                scalar_vals(range@) == rng,
                rng == share_range(self.0@),
                vals == share_vals(self.0@),
                acc.v() == interp_upto(rng, vals, i as int),
                forall|m: int| 0 <= m < i ==> lag_den(rng, m) != 0
                    && fmul(inv_of(#[trigger] lag_den(rng, m)), lag_den(rng, m)) == 1,
            decreases self.0@.len() - i,
        {
            match Polynomial::l_i(range.as_slice(), i) {
                Ok(w) => {
                    acc = acc.add(&w.mul(&self.0[i].yi));
                },
                Err(e) => {
                    return Err(e);
                },
            }
            i += 1;
        }
        Ok(acc)
    }
}

/// An ordered collection of point shares.
#[derive(Clone, Debug)]
pub struct PointShareVector(pub Vec<PointShare>);

impl PointShareVector {
    /// Adds two point-share vectors pairwise over the common length; every
    /// pair must carry the same index.
    #[verifier::rlimit(30)]
    pub fn add(&self, rhs: &PointShareVector) -> (r: Result<PointShareVector, Error>)
        ensures
            match r {
                Ok(v) => v.0@.len() == min_len(self.0@.len() as int, rhs.0@.len() as int)
                    && (forall|k: int| 0 <= k < v.0@.len()
                        ==> (#[trigger] v.0@[k]).i == self.0@[k].i
                            && self.0@[k].i == rhs.0@[k].i
                            && v.0@[k].Yi.v() == fadd(self.0@[k].Yi.v(), rhs.0@[k].Yi.v())),
                Err(e) => e == Error::IndexMismatch
                    && exists|k: int| 0 <= k < min_len(self.0@.len() as int, rhs.0@.len() as int)
                        && (#[trigger] self.0@[k]).i != rhs.0@[k].i,
            },
    {
        let n = if self.0.len() < rhs.0.len() { self.0.len() } else { rhs.0.len() };
        let mut out: Vec<PointShare> = Vec::new();
        let mut k: usize = 0;
        while k < n
            invariant
                k <= n,
                n == min_len(self.0@.len() as int, rhs.0@.len() as int),
                out@.len() == k,
                forall|m: int| 0 <= m < k ==> (#[trigger] out@[m]).i == self.0@[m].i
                    && self.0@[m].i == rhs.0@[m].i
                    && out@[m].Yi.v() == fadd(self.0@[m].Yi.v(), rhs.0@[m].Yi.v()),
            decreases n - k,
        {
            match self.0[k].add(&rhs.0[k]) {
                Ok(s) => out.push(s),
                Err(e) => {
                    return Err(e);
                },
            }
            k += 1;
        }
        let result = PointShareVector(out);
        proof {
            assert(result.0@.len() == min_len(self.0@.len() as int, rhs.0@.len() as int));
            assert(forall|m: int| 0 <= m < result.0@.len()
                ==> (#[trigger] result.0@[m]).i == self.0@[m].i
                    && self.0@[m].i == rhs.0@[m].i
                    && result.0@[m].Yi.v() == fadd(self.0@[m].Yi.v(), rhs.0@[m].Yi.v()));
        }
        Ok(result)
    }

    /// Subtracts two point-share vectors pairwise over the common length;
    /// every pair must carry the same index.
    #[verifier::rlimit(30)]
    pub fn sub(&self, rhs: &PointShareVector) -> (r: Result<PointShareVector, Error>)
        ensures
            match r {
                Ok(v) => v.0@.len() == min_len(self.0@.len() as int, rhs.0@.len() as int)
                    && (forall|k: int| 0 <= k < v.0@.len()
                        ==> (#[trigger] v.0@[k]).i == self.0@[k].i
                            && self.0@[k].i == rhs.0@[k].i
                            && v.0@[k].Yi.v() == fsub(self.0@[k].Yi.v(), rhs.0@[k].Yi.v())),
                Err(e) => e == Error::IndexMismatch
                    && exists|k: int| 0 <= k < min_len(self.0@.len() as int, rhs.0@.len() as int)
                        && (#[trigger] self.0@[k]).i != rhs.0@[k].i,
            },
    {
        let n = if self.0.len() < rhs.0.len() { self.0.len() } else { rhs.0.len() };
        let mut out: Vec<PointShare> = Vec::new();
        let mut k: usize = 0;
        while k < n
            invariant
                k <= n,
                n == min_len(self.0@.len() as int, rhs.0@.len() as int),
                out@.len() == k,
                forall|m: int| 0 <= m < k ==> (#[trigger] out@[m]).i == self.0@[m].i
                    && self.0@[m].i == rhs.0@[m].i
                    && out@[m].Yi.v() == fsub(self.0@[m].Yi.v(), rhs.0@[m].Yi.v()),
            decreases n - k,
        {
            match self.0[k].sub(&rhs.0[k]) {
                Ok(s) => out.push(s),
                Err(e) => {
                    return Err(e);
                },
            }
            k += 1;
        }
        let result = PointShareVector(out);
        proof {
            assert(result.0@.len() == min_len(self.0@.len() as int, rhs.0@.len() as int));
            assert(forall|m: int| 0 <= m < result.0@.len()
                ==> (#[trigger] result.0@[m]).i == self.0@[m].i
                    && self.0@[m].i == rhs.0@[m].i
                    && result.0@[m].Yi.v() == fsub(self.0@[m].Yi.v(), rhs.0@[m].Yi.v()));
        }
        Ok(result)
    }

    /// Adds a fixed point to every share's point.
    pub fn add_point(&self, rhs: &G1Elem) -> (r: PointShareVector)
        ensures
            r.0@.len() == self.0@.len(),
            forall|k: int| 0 <= k < r.0@.len() ==> (#[trigger] r.0@[k]).i == self.0@[k].i
                && r.0@[k].Yi.v() == fadd(self.0@[k].Yi.v(), rhs.v()),
    {
        let mut out: Vec<PointShare> = Vec::new();
        let mut k: usize = 0;
        while k < self.0.len()
            invariant
                k <= self.0@.len(),
                out@.len() == k,
                forall|m: int| 0 <= m < k ==> (#[trigger] out@[m]).i == self.0@[m].i
                    && out@[m].Yi.v() == fadd(self.0@[m].Yi.v(), rhs.v()),
            decreases self.0@.len() - k,
        {
            out.push(self.0[k].add_point(rhs));
            k += 1;
        }
        PointShareVector(out)
    }

    /// Scales every share's point.
    pub fn mul(&self, rhs: &Scalar) -> (r: PointShareVector)
        ensures
            r.0@.len() == self.0@.len(),
            forall|k: int| 0 <= k < r.0@.len() ==> (#[trigger] r.0@[k]).i == self.0@[k].i
                && r.0@[k].Yi.v() == fmul(self.0@[k].Yi.v(), rhs.v()),
    {
        let mut out: Vec<PointShare> = Vec::new();
        let mut k: usize = 0;
        while k < self.0.len()
            invariant
                k <= self.0@.len(),
                out@.len() == k,
                forall|m: int| 0 <= m < k ==> (#[trigger] out@[m]).i == self.0@[m].i
                    && out@[m].Yi.v() == fmul(self.0@[m].Yi.v(), rhs.v()),
            decreases self.0@.len() - k,
        {
            out.push(self.0[k].mul(rhs));
            k += 1;
        }
        PointShareVector(out)
    }
}

impl Interpolate for PointShareVector {
    type Output = Result<G1Elem, Error>;

    /// The weighted sum of the shares' points with the Lagrange basis
    /// coefficients of the shares' own indices; the committed value at
    /// `x = 0`.  Fails exactly when a Lagrange denominator vanishes.
    fn interpolate(&self) -> (r: Result<G1Elem, Error>)
        ensures
            match r {
                Ok(v) => v.v() == interp(pshare_range(self.0@), pshare_vals(self.0@))
                    && forall|i: int| 0 <= i < self.0@.len()
                        ==> lag_den(pshare_range(self.0@), i) != 0
                            && fmul(
                                inv_of(#[trigger] lag_den(pshare_range(self.0@), i)),
                                lag_den(pshare_range(self.0@), i),
                            ) == 1,
                Err(e) => e == Error::DegenerateInterpolation
                    && exists|i: int| 0 <= i < self.0@.len()
                        && lag_den(pshare_range(self.0@), i) == 0,
            },
    {
        let ghost rng = pshare_range(self.0@);
        let ghost vals = pshare_vals(self.0@);
        let mut range: Vec<Scalar> = Vec::new();
        let mut k: usize = 0;
        while k < self.0.len()
            invariant
                k <= self.0@.len(),
                range@.len() == k,
                forall|m: int| 0 <= m < k ==> (#[trigger] range@[m]).v()
                    == pshare_range(self.0@)[m],
            decreases self.0@.len() - k,
        {
            range.push(Scalar::from_u64(self.0[k].i as u64));
            k += 1;
        }
        proof {
            assert(scalar_vals(range@) =~= rng);
        }
        let mut acc = G1Elem::identity();
        let mut i: usize = 0;
        while i < self.0.len()
            invariant
                i <= self.0@.len(),
                range@.len() == self.0@.len(),
                scalar_vals(range@) == rng,
                rng == pshare_range(self.0@),
                vals == pshare_vals(self.0@),
                acc.v() == interp_upto(rng, vals, i as int),
                forall|m: int| 0 <= m < i ==> lag_den(rng, m) != 0
                    && fmul(inv_of(#[trigger] lag_den(rng, m)), lag_den(rng, m)) == 1,
            decreases self.0@.len() - i,
        {
            match Polynomial::l_i(range.as_slice(), i) {
                Ok(w) => {
                    acc = acc.add(&self.0[i].Yi.mul(&w));
                    proof {
                        crate::algebra::lemma_fmul_comm(vals[i as int], lag_w(rng, i as int));
                    }
                },
                Err(e) => {
                    return Err(e);
                },
            }
            i += 1;
        }
        Ok(acc)
    }
}

/// Multiplication of a monic polynomial (coefficients `a`, constant term
/// first) by the monic linear factor `x + b`; the new leading coefficient is
/// again 1.
pub open spec fn smul1(a: Seq<nat>, b: nat) -> Seq<nat> {
    Seq::new(
        a.len() + 1,
        |k: int| if k == 0 {
            fmul(a[0], b)
        } else if k < a.len() {
            fadd(a[k - 1], fmul(a[k], b))
        } else {
            1
        },
    )
}

/// The coefficients of the partial Lagrange numerator polynomial for node
/// `i`: the product of `x - range[j]` over the first `n` positions, `i`
/// excluded.
pub open spec fn lag_np_upto(range: Seq<nat>, i: int, n: int) -> Seq<nat>
    decreases n,
{
    if n <= 0 {
        seq![1nat]
    } else if n - 1 == i {
        lag_np_upto(range, i, n - 1)
    } else {
        smul1(lag_np_upto(range, i, n - 1), crate::algebra::fneg(range[n - 1]))
    }
}

/// The full Lagrange numerator polynomial for node `i`.
pub open spec fn lag_np(range: Seq<nat>, i: int) -> Seq<nat> {
    lag_np_upto(range, i, range.len() as int)
}

/// The length of the partial numerator polynomial.
pub proof fn lemma_lag_np_upto_len(range: Seq<nat>, i: int, n: int)
    requires
        n >= 0,
    ensures
        lag_np_upto(range, i, n).len() == if 0 <= i < n {
            n as nat
        } else {
            (n + 1) as nat
        },
    decreases n,
{
    if n > 0 {
        lemma_lag_np_upto_len(range, i, n - 1);
    }
}

/// Partial barycentric denominator for node `i`: the product of
/// `range[i] - range[j]` over the first `n` positions, `i` excluded.
pub open spec fn bar_den_upto(range: Seq<nat>, i: int, n: int) -> nat
    decreases n,
{
    if n <= 0 {
        1
    } else if n - 1 == i {
        bar_den_upto(range, i, n - 1)
    } else {
        fmul(bar_den_upto(range, i, n - 1), fsub(range[i], range[n - 1]))
    }
}

/// The barycentric denominator of node `i` over the whole range.
pub open spec fn bar_den(range: Seq<nat>, i: int) -> nat {
    bar_den_upto(range, i, range.len() as int)
}

/// The reconstructed coefficient `j` after accumulating the first `n`
/// shares: each share contributes its point scaled by coefficient `j` of
/// its numerator polynomial times its barycentric weight.
pub open spec fn recon_upto(range: Seq<nat>, vals: Seq<nat>, j: int, n: int) -> nat
    decreases n,
{
    if n <= 0 {
        0
    } else {
        fadd(
            recon_upto(range, vals, j, n - 1),
            fmul(vals[n - 1], fmul(lag_np(range, n - 1)[j], inv_of(bar_den(range, n - 1)))),
        )
    }
}

/// All reconstructed coefficients, before trailing identities are trimmed.
pub open spec fn recon_coefs(range: Seq<nat>, vals: Seq<nat>) -> Seq<nat> {
    Seq::new(range.len(), |j: int| recon_upto(range, vals, j, range.len() as int))
}

/// The length that remains after trimming the trailing run of `z` values.
pub open spec fn trim_len(vals: Seq<nat>, z: nat) -> int
    decreases vals.len(),
{
    if vals.len() == 0 {
        0
    } else if vals.last() == z {
        trim_len(vals.drop_last(), z)
    } else {
        vals.len() as int
    }
}

/// The trimmed length never exceeds the original length.
pub proof fn lemma_trim_len_bounds(vals: Seq<nat>, z: nat)
    ensures
        0 <= trim_len(vals, z) <= vals.len(),
    decreases vals.len(),
{
    if vals.len() > 0 && vals.last() == z {
        lemma_trim_len_bounds(vals.drop_last(), z);
    }
}

/// Removes the trailing run of points equal to `elm`, leaving the longest
/// prefix whose last element differs from it.
pub fn cut_tail(v: &mut Vec<G1Elem>, elm: &G1Elem)
    ensures
        final(v)@ == old(v)@.subrange(0, trim_len(g1_vals(old(v)@), elm.v())),
{
    loop
        invariant
            v@.len() <= old(v)@.len(),
            v@ == old(v)@.subrange(0, v@.len() as int),
            trim_len(g1_vals(v@), elm.v()) == trim_len(g1_vals(old(v)@), elm.v()),
        ensures
            v@ == old(v)@.subrange(0, trim_len(g1_vals(old(v)@), elm.v())),
        decreases v@.len(),
    {
        if v.len() == 0 {
            proof {
                assert(g1_vals(v@).len() == 0);
                assert(v@ =~= old(v)@.subrange(0, 0));
            }
            break;
        }
        let last = v.len() - 1;
        let is_z = v[last].equals(elm);
        if !is_z {
            proof {
                assert(g1_vals(v@).last() == v@.last().v());
                assert(trim_len(g1_vals(v@), elm.v()) == v@.len() as int);
            }
            break;
        }
        let ghost pre = v@;
        v.pop();
        proof {
            assert(g1_vals(v@) =~= g1_vals(pre).drop_last());
            assert(g1_vals(pre).last() == pre.last().v());
            assert(v@ =~= old(v)@.subrange(0, v@.len() as int));
        }
    }
}

/// Multiplies the polynomial `a` (monic, constant term first) in place by
/// the monic linear factor `x + b`.
fn short_mul(a: &mut Vec<Scalar>, b: &Scalar)
    requires
        old(a)@.len() >= 1,
    ensures
        scalar_vals(final(a)@) == smul1(scalar_vals(old(a)@), b.v()),
{
    let ghost orig = a@;
    let mut prev = a[0];
    let first = a[0].mul(b);
    a[0] = first;
    let mut k: usize = 1;
    while k < a.len()
        invariant
            1 <= k <= a@.len(),
            a@.len() == orig.len(),
            prev == orig[k - 1],
            forall|m: int| 0 <= m < k ==> (#[trigger] a@[m]).v() == smul1(scalar_vals(orig), b.v())[m],
            forall|m: int| k <= m < a@.len() ==> a@[m] == orig[m],
        decreases a@.len() - k,
    {
        let this = a[k];
        let updated = prev.add(&a[k].mul(b));
        a[k] = updated;
        prev = this;
        k += 1;
    }
    a.push(Scalar::from_u64(1));
    proof {
        assert(scalar_vals(a@) =~= smul1(scalar_vals(orig), b.v()));
    }
}

/// The full Lagrange numerator polynomial of node `i` together with its
/// barycentric weight, the inverse of the denominator product.  Fails
/// exactly when that product vanishes.
fn lx_num_bar(range: &[Scalar], i: usize) -> (r: Result<(Vec<Scalar>, Scalar), Error>)
    requires
        i < range@.len(),
    ensures
        match r {
            Ok(p) => scalar_vals(p.0@) == lag_np(scalar_vals(range@), i as int)
                && p.1.v() == inv_of(bar_den(scalar_vals(range@), i as int))
                && bar_den(scalar_vals(range@), i as int) != 0
                && fmul(
                    inv_of(bar_den(scalar_vals(range@), i as int)),
                    bar_den(scalar_vals(range@), i as int),
                ) == 1,
            Err(e) => e == Error::DegenerateInterpolation
                && bar_den(scalar_vals(range@), i as int) == 0,
        },
{
    let mut num: Vec<Scalar> = Vec::new();
    num.push(Scalar::from_u64(1));
    let mut denum = Scalar::from_u64(1);
    proof {
        assert(scalar_vals(num@) =~= seq![1nat]);
    }
    let mut j: usize = 0;
    while j < range.len()
        invariant
            i < range@.len(),
            j <= range@.len(),
            num@.len() >= 1,
            scalar_vals(num@) == lag_np_upto(scalar_vals(range@), i as int, j as int),
            denum.v() == bar_den_upto(scalar_vals(range@), i as int, j as int),
        decreases range@.len() - j,
    {
        if j != i {
            short_mul(&mut num, &range[j].neg());
            denum = denum.mul(&range[i].sub(&range[j]));
            proof {
                assert(scalar_vals(num@).len() == num@.len());
            }
        }
        j += 1;
    }
    match denum.invert() {
        Some(bar) => Ok((num, bar)),
        None => Err(Error::DegenerateInterpolation),
    }
}

impl Reconstruct for PointShareVector {
    type Output = Result<PointPolynomial, Error>;

    /// Rebuilds the committed polynomial behind the point shares: for each
    /// share, the full Lagrange numerator polynomial scaled by the share's
    /// barycentric weight is accumulated coefficient-wise; the trailing run
    /// of identity coefficients is trimmed.  Fails exactly when a
    /// barycentric denominator vanishes.
    fn reconstruct(&self) -> (r: Result<PointPolynomial, Error>)
        ensures
            match r {
                Ok(p) => g1_vals(p.0@) == recon_coefs(pshare_range(self.0@), pshare_vals(self.0@))
                    .subrange(0, trim_len(recon_coefs(pshare_range(self.0@), pshare_vals(self.0@)), 0))
                    && (forall|i: int| 0 <= i < self.0@.len()
                        ==> bar_den(pshare_range(self.0@), i) != 0
                            && fmul(
                                inv_of(#[trigger] bar_den(pshare_range(self.0@), i)),
                                bar_den(pshare_range(self.0@), i),
                            ) == 1),
                Err(e) => e == Error::DegenerateInterpolation
                    && exists|i: int| 0 <= i < self.0@.len()
                        && bar_den(pshare_range(self.0@), i) == 0,
            },
    {
        let ghost rng = pshare_range(self.0@);
        let ghost vls = pshare_vals(self.0@);
        let n = self.0.len();
        let mut range: Vec<Scalar> = Vec::new();
        let mut k: usize = 0;
        while k < n
            invariant
                k <= n,
                n == self.0@.len(),
                range@.len() == k,
                forall|m: int| 0 <= m < k ==> (#[trigger] range@[m]).v()
                    == pshare_range(self.0@)[m],
            decreases n - k,
        {
            range.push(Scalar::from_u64(self.0[k].i as u64));
            k += 1;
        }
        proof {
            assert(scalar_vals(range@) =~= rng);
        }
        let mut acc: Vec<G1Elem> = Vec::new();
        let mut k2: usize = 0;
        while k2 < n
            invariant
                k2 <= n,
                acc@.len() == k2,
                forall|m: int| 0 <= m < k2 ==> (#[trigger] acc@[m]).v() == 0,
            decreases n - k2,
        {
            acc.push(G1Elem::identity());
            k2 += 1;
        }
        let mut i: usize = 0;
        while i < n
            invariant
                i <= n,
                n == self.0@.len(),
                range@.len() == n,
                scalar_vals(range@) == rng,
                rng == pshare_range(self.0@),
                vls == pshare_vals(self.0@),
                acc@.len() == n,
                forall|j: int| 0 <= j < n ==> (#[trigger] acc@[j]).v() == recon_upto(rng, vls, j, i as int),
                forall|m: int| 0 <= m < i ==> bar_den(rng, m) != 0
                    && fmul(inv_of(#[trigger] bar_den(rng, m)), bar_den(rng, m)) == 1,
            decreases n - i,
        {
            match lx_num_bar(range.as_slice(), i) {
                Err(e) => {
                    return Err(e);
                },
                Ok((num, bar)) => {
                    proof {
                        lemma_lag_np_upto_len(rng, i as int, n as int);
                        assert(num@.len() == n);
                    }
                    let mut j: usize = 0;
                    while j < n
                        invariant
                            j <= n,
                            i < n,
                            n == self.0@.len(),
                            acc@.len() == n,
                            num@.len() == n,
                            rng == pshare_range(self.0@),
                            vls == pshare_vals(self.0@),
                            scalar_vals(num@) == lag_np(rng, i as int),
                            bar.v() == inv_of(bar_den(rng, i as int)),
                            forall|m: int| 0 <= m < j ==> (#[trigger] acc@[m]).v()
                                == recon_upto(rng, vls, m, i + 1),
                            forall|m: int| j <= m < n ==> (#[trigger] acc@[m]).v()
                                == recon_upto(rng, vls, m, i as int),
                        decreases n - j,
                    {
                        let w = num[j].mul(&bar);
                        let term = self.0[i].Yi.mul(&w);
                        let cur = acc[j];
                        acc[j] = cur.add(&term);
                        proof {
                            assert(scalar_vals(num@)[j as int] == num@[j as int].v());
                            assert(vls[i as int] == self.0@[i as int].Yi.v());
                        }
                        j += 1;
                    }
                },
            }
            i += 1;
        }
        proof {
            assert(g1_vals(acc@) =~= recon_coefs(rng, vls));
            lemma_trim_len_bounds(recon_coefs(rng, vls), 0);
        }
        let ghost pre_cut = acc@;
        cut_tail(&mut acc, &G1Elem::identity());
        let result = PointPolynomial(acc);
        proof {
            lemma_trim_len_bounds(g1_vals(pre_cut), 0);
            assert(g1_vals(result.0@) =~= recon_coefs(rng, vls)
                .subrange(0, trim_len(recon_coefs(rng, vls), 0)));
        }
        Ok(result)
    }
}

/// Lifting commutes with evaluation: the committed polynomial (every
/// coefficient multiplied by `g` in the exponent) evaluates at any point to
/// `g` times the scalar polynomial's value there.  Together with the exact
/// contracts of `Polynomial::shares`, `Polynomial::lift`, `Share::lift` and
/// `PointPolynomial::verify`, this shows that `verify` accepts every genuine
/// point share of the matching committed polynomial, and rejects any point
/// share whose point differs from the committed evaluation.
pub proof fn lemma_lift_evaluate(coefs: Seq<nat>, g: nat, x: nat)
    ensures
        poly_eval(coefs.map(|j: int, c: nat| fmul(g, c)), x) == fmul(g, poly_eval(coefs, x)),
    decreases coefs.len(),
{
    crate::algebra::lemma_field_r_bounds();
    let lifted = coefs.map(|j: int, c: nat| fmul(g, c));
    if coefs.len() == 0 {
        crate::algebra::lemma_fmul_zero(g);
    } else {
        lemma_lift_evaluate(coefs.drop_first(), g, x);
        assert(lifted.drop_first() =~= coefs.drop_first().map(|j: int, c: nat| fmul(g, c)));
        let tail = poly_eval(coefs.drop_first(), x);
        crate::algebra::lemma_fmul_assoc(x, g, tail);
        crate::algebra::lemma_fmul_comm(x, g);
        crate::algebra::lemma_fmul_assoc(g, x, tail);
        crate::algebra::lemma_fmul_dist_fadd(g, coefs[0], fmul(x, tail));
    }
}

/// Every partial interpolation sum is a reduced field value.
pub proof fn lemma_interp_upto_bound(range: Seq<nat>, vals: Seq<nat>, n: int)
    ensures
        interp_upto(range, vals, n) < field_r(),
    decreases n,
{
    if n > 0 {
        lemma_interp_upto_bound(range, vals, n - 1);
    }
}

/// Interpolation is homogeneous: interpolating shares that were all scaled
/// by `g` yields `g` times the interpolation of the original shares.
pub proof fn lemma_interp_scale(range: Seq<nat>, vals: Seq<nat>, scaled: Seq<nat>, g: nat, n: int)
    requires
        scaled.len() >= n,
        vals.len() >= n,
        forall|j: int| 0 <= j < n ==> scaled[j] == fmul(g, #[trigger] vals[j]),
    ensures
        interp_upto(range, scaled, n) == fmul(g, interp_upto(range, vals, n)),
    decreases n,
{
    crate::algebra::lemma_field_r_bounds();
    if n <= 0 {
        crate::algebra::lemma_fmul_zero(g);
        crate::algebra::lemma_fadd_zero(0);
    } else {
        lemma_interp_scale(range, vals, scaled, g, n - 1);
        let w = lag_w(range, n - 1);
        let v = vals[n - 1];
        let s = interp_upto(range, vals, n - 1);
        crate::algebra::lemma_fmul_assoc(w, g, v);
        crate::algebra::lemma_fmul_comm(w, g);
        crate::algebra::lemma_fmul_assoc(g, w, v);
        crate::algebra::lemma_fmul_dist_fadd(g, s, fmul(w, v));
    }
}

/// Interpolation is linear: interpolating the share-wise combination
/// `a·u + b·v` yields the same combination of the two interpolations.
pub proof fn lemma_interp_lin2(
    range: Seq<nat>,
    u: Seq<nat>,
    v: Seq<nat>,
    w: Seq<nat>,
    a: nat,
    b: nat,
    n: int,
)
    requires
        u.len() >= n,
        v.len() >= n,
        w.len() >= n,
        forall|j: int| 0 <= j < n ==> #[trigger] w[j] == fadd(fmul(a, u[j]), fmul(b, v[j])),
    ensures
        interp_upto(range, w, n) == fadd(
            fmul(a, interp_upto(range, u, n)),
            fmul(b, interp_upto(range, v, n)),
        ),
    decreases n,
{
    crate::algebra::lemma_field_r_bounds();
    if n <= 0 {
        crate::algebra::lemma_fmul_zero(a);
        crate::algebra::lemma_fmul_zero(b);
        crate::algebra::lemma_fadd_zero(0);
    } else {
        lemma_interp_lin2(range, u, v, w, a, b, n - 1);
        let lw = lag_w(range, n - 1);
        let su = interp_upto(range, u, n - 1);
        let sv = interp_upto(range, v, n - 1);
        let uj = u[n - 1];
        let vj = v[n - 1];
        // Distribute the weight over the combined share value.
        crate::algebra::lemma_fmul_dist_fadd(lw, fmul(a, uj), fmul(b, vj));
        // Swap the weight inside each product.
        crate::algebra::lemma_fmul_assoc(lw, a, uj);
        crate::algebra::lemma_fmul_comm(lw, a);
        crate::algebra::lemma_fmul_assoc(a, lw, uj);
        crate::algebra::lemma_fmul_assoc(lw, b, vj);
        crate::algebra::lemma_fmul_comm(lw, b);
        crate::algebra::lemma_fmul_assoc(b, lw, vj);
        // Distribute a and b over their accumulated sums.
        crate::algebra::lemma_fmul_dist_fadd(a, su, fmul(lw, uj));
        crate::algebra::lemma_fmul_dist_fadd(b, sv, fmul(lw, vj));
        // Regroup the four terms.
        crate::algebra::lemma_fadd_4(fmul(a, su), fmul(b, sv), fmul(a, fmul(lw, uj)), fmul(b, fmul(lw, vj)));
    }
}

/// The product of the monic linear factors `t - range[j]` over the first
/// `n` positions, position `i` excluded: the numerator polynomial of node
/// `i`, evaluated at `t`.
pub open spec fn lin_prod_upto(range: Seq<nat>, i: int, n: int, t: nat) -> nat
    decreases n,
{
    if n <= 0 {
        1
    } else if n - 1 == i {
        lin_prod_upto(range, i, n - 1, t)
    } else {
        fmul(lin_prod_upto(range, i, n - 1, t), fsub(t, range[n - 1]))
    }
}

/// The numerator polynomial is monic at every stage.
pub proof fn lemma_lag_np_monic(range: Seq<nat>, i: int, n: int)
    requires
        n >= 0,
    ensures
        lag_np_upto(range, i, n).len() >= 1,
        lag_np_upto(range, i, n).last() == 1,
    decreases n,
{
    if n > 0 {
        lemma_lag_np_monic(range, i, n - 1);
    }
}

/// Adding to the constant term adds to the evaluation.
proof fn lemma_eval_head_add(c: Seq<nat>, d: nat, t: nat)
    requires
        c.len() >= 1,
    ensures
        poly_eval(c.update(0, fadd(d, c[0])), t) == fadd(d, poly_eval(c, t)),
{
    crate::algebra::lemma_field_r_bounds();
    let c2 = c.update(0, fadd(d, c[0]));
    assert(c2.drop_first() =~= c.drop_first());
    let tail = fmul(t, poly_eval(c.drop_first(), t));
    // Both sides reduce the same integer sum.
    crate::algebra::lemma_fadd_cong(d, c[0]);
    crate::algebra::lemma_cong_add(fadd(d, c[0]) as int, tail as int, (d + c[0]) as int, tail as int);
    crate::algebra::lemma_fadd_cong(fadd(d, c[0]), tail);
    crate::algebra::lemma_fadd_cong(c[0], tail);
    crate::algebra::lemma_cong_add(d as int, fadd(c[0], tail) as int, d as int, (c[0] + tail) as int);
    crate::algebra::lemma_fadd_cong(d, fadd(c[0], tail));
    crate::algebra::lemma_cong_eq(poly_eval(c2, t), fadd(d, poly_eval(c, t)));
}

/// Multiplying a monic polynomial by the factor `t + b` multiplies its
/// value at `t` accordingly.
proof fn lemma_smul1_eval(a: Seq<nat>, b: nat, t: nat)
    requires
        a.len() >= 1,
        a.last() == 1,
    ensures
        poly_eval(smul1(a, b), t) == fmul(fadd(t, b), poly_eval(a, t)),
    decreases a.len(),
{
    crate::algebra::lemma_field_r_bounds();
    let s = smul1(a, b);
    if a.len() == 1 {
        // a is the constant 1; s is [b, 1].
        assert(s =~= seq![fmul(a[0], b), 1nat]);
        assert(a.drop_first() =~= Seq::<nat>::empty());
        assert(s.drop_first() =~= seq![1nat]);
        assert(seq![1nat].drop_first() =~= Seq::<nat>::empty());
        crate::algebra::lemma_fmul_zero(t);
        vstd::arithmetic::div_mod::lemma_small_mod(1nat, field_r());
        assert(poly_eval(seq![1nat], t) == fadd(1, 0));
        assert(poly_eval(a, t) == fadd(1, 0));
        assert(fadd(1nat, 0) == 1) by {
            crate::algebra::lemma_fadd_zero(1nat);
        }
        // value of s: a0*b + t*1; value of rhs: (t+b)*1.
        assert(1 * b == b);
        vstd::arithmetic::div_mod::lemma_small_mod(b % field_r(), field_r());
        assert(t * 1 == t) by (nonlinear_arith);
        crate::algebra::lemma_fmul_cong(a[0], b);
        crate::algebra::lemma_fmul_cong(t, 1);
        crate::algebra::lemma_cong_add(fmul(a[0], b) as int, fmul(t, 1) as int, b as int, t as int);
        crate::algebra::lemma_fadd_cong(fmul(a[0], b), fmul(t, 1));
        crate::algebra::lemma_fadd_cong(t, b);
        crate::algebra::lemma_fmul_cong(fadd(t, b), 1);
        crate::algebra::lemma_cong_mul(fadd(t, b) as int, 1, (t + b) as int, 1);
        assert((t + b) * 1 == t + b) by (nonlinear_arith);
        crate::algebra::lemma_cong_eq(poly_eval(s, t), fmul(fadd(t, b), poly_eval(a, t)));
    } else {
        let a2 = a.drop_first();
        assert(a2.last() == 1);
        lemma_smul1_eval(a2, b, t);
        let s2 = smul1(a2, b);
        // The tail of s is s2 with the old constant term added at the head.
        assert(s.drop_first() =~= s2.update(0, fadd(a[0], s2[0])));
        lemma_eval_head_add(s2, a[0], t);
        let e2 = poly_eval(a2, t);
        let ihs = poly_eval(s2, t);
        assert(ihs == fmul(fadd(t, b), e2));
        assert(poly_eval(s, t) == fadd(fmul(a[0], b), fmul(t, fadd(a[0], ihs))));
        // Integer shadows.
        let a0 = a[0] as int;
        let bi = b as int;
        let ti = t as int;
        let e2i = e2 as int;
        crate::algebra::lemma_fmul_cong(a[0], b);
        crate::algebra::lemma_fadd_cong(t, b);
        crate::algebra::lemma_cong_mul(fadd(t, b) as int, e2i, ti + bi, e2i);
        crate::algebra::lemma_fmul_cong(fadd(t, b), e2);
        assert(cong(ihs as int, (ti + bi) * e2i));
        crate::algebra::lemma_fadd_cong(a[0], ihs);
        crate::algebra::lemma_cong_add(a0, ihs as int, a0, (ti + bi) * e2i);
        crate::algebra::lemma_cong_mul(ti, fadd(a[0], ihs) as int, ti, a0 + (ti + bi) * e2i);
        crate::algebra::lemma_fmul_cong(t, fadd(a[0], ihs));
        crate::algebra::lemma_cong_add(
            fmul(a[0], b) as int,
            fmul(t, fadd(a[0], ihs)) as int,
            a0 * bi,
            ti * (a0 + (ti + bi) * e2i),
        );
        crate::algebra::lemma_fadd_cong(fmul(a[0], b), fmul(t, fadd(a[0], ihs)));
        // The right-hand side.
        let ea = poly_eval(a, t);
        assert(ea == fadd(a[0], fmul(t, e2)));
        crate::algebra::lemma_fmul_cong(t, e2);
        crate::algebra::lemma_cong_add(a0, fmul(t, e2) as int, a0, ti * e2i);
        crate::algebra::lemma_fadd_cong(a[0], fmul(t, e2));
        crate::algebra::lemma_cong_mul(fadd(t, b) as int, ea as int, ti + bi, a0 + ti * e2i);
        crate::algebra::lemma_fmul_cong(fadd(t, b), ea);
        // The two integer polynomials agree.
        assert(a0 * bi + ti * (a0 + (ti + bi) * e2i) == (ti + bi) * (a0 + ti * e2i))
            by (nonlinear_arith);
        crate::algebra::lemma_cong_eq(poly_eval(s, t), fmul(fadd(t, b), ea));
    }
}

/// The numerator polynomial evaluates to the product of its linear factors.
pub proof fn lemma_lag_np_eval(range: Seq<nat>, i: int, n: int, t: nat)
    requires
        n >= 0,
    ensures
        poly_eval(lag_np_upto(range, i, n), t) == lin_prod_upto(range, i, n, t),
    decreases n,
{
    crate::algebra::lemma_field_r_bounds();
    if n <= 0 {
        crate::algebra::lemma_fmul_zero(t);
        vstd::arithmetic::div_mod::lemma_small_mod(1nat, field_r());
        crate::algebra::lemma_fadd_zero(1nat);
        assert(seq![1nat].drop_first() =~= Seq::<nat>::empty());
        assert(poly_eval(Seq::<nat>::empty(), t) == 0);
        assert(poly_eval(seq![1nat], t) == 1);
    } else if n - 1 == i {
        lemma_lag_np_eval(range, i, n - 1, t);
    } else {
        lemma_lag_np_eval(range, i, n - 1, t);
        lemma_lag_np_monic(range, i, n - 1);
        lemma_smul1_eval(lag_np_upto(range, i, n - 1), crate::algebra::fneg(range[n - 1]), t);
        crate::algebra::lemma_fadd_fneg(t, range[n - 1]);
        crate::algebra::lemma_fmul_comm(
            fsub(t, range[n - 1]),
            lin_prod_upto(range, i, n - 1, t),
        );
    }
}

/// The numerator polynomial of node `i` vanishes at every other node.
pub proof fn lemma_lin_prod_zero(range: Seq<nat>, i: int, n: int, m: int)
    requires
        0 <= m < n,
        m != i,
    ensures
        lin_prod_upto(range, i, n, range[m]) == 0,
    decreases n,
{
    crate::algebra::lemma_field_r_bounds();
    if n - 1 == m {
        crate::algebra::lemma_fsub_self(range[m]);
        crate::algebra::lemma_fmul_zero(lin_prod_upto(range, i, n - 1, range[m]));
    } else if n - 1 == i {
        lemma_lin_prod_zero(range, i, n - 1, m);
    } else {
        lemma_lin_prod_zero(range, i, n - 1, m);
        crate::algebra::lemma_fmul_zero(fsub(range[m], range[n - 1]));
        crate::algebra::lemma_fmul_comm(0, fsub(range[m], range[n - 1]));
    }
}

/// At its own node, the numerator polynomial takes the barycentric
/// denominator as its value.
pub proof fn lemma_lin_prod_at_own(range: Seq<nat>, i: int, n: int)
    requires
        n >= 0,
    ensures
        lin_prod_upto(range, i, n, range[i]) == bar_den_upto(range, i, n),
    decreases n,
{
    if n > 0 {
        lemma_lin_prod_at_own(range, i, n - 1);
    }
}

/// The all-zero polynomial evaluates to zero.
pub proof fn lemma_eval_zero_seq(c: Seq<nat>, t: nat)
    requires
        forall|j: int| 0 <= j < c.len() ==> #[trigger] c[j] == 0,
    ensures
        poly_eval(c, t) == 0,
    decreases c.len(),
{
    crate::algebra::lemma_field_r_bounds();
    if c.len() > 0 {
        lemma_eval_zero_seq(c.drop_first(), t);
        crate::algebra::lemma_fmul_zero(t);
        crate::algebra::lemma_fadd_zero(0);
    }
}

/// Evaluation is additive in the coefficients.
pub proof fn lemma_eval_pointwise_add(c: Seq<nat>, d: Seq<nat>, t: nat)
    requires
        c.len() == d.len(),
    ensures
        poly_eval(Seq::new(c.len(), |j: int| fadd(c[j], d[j])), t)
            == fadd(poly_eval(c, t), poly_eval(d, t)),
    decreases c.len(),
{
    crate::algebra::lemma_field_r_bounds();
    let s = Seq::new(c.len(), |j: int| fadd(c[j], d[j]));
    if c.len() == 0 {
        crate::algebra::lemma_fadd_zero(0);
    } else {
        lemma_eval_pointwise_add(c.drop_first(), d.drop_first(), t);
        assert(s.drop_first() =~= Seq::new(
            c.drop_first().len(),
            |j: int| fadd(c.drop_first()[j], d.drop_first()[j]),
        ));
        let ec = poly_eval(c.drop_first(), t);
        let ed = poly_eval(d.drop_first(), t);
        crate::algebra::lemma_fmul_dist_fadd(t, ec, ed);
        crate::algebra::lemma_fadd_4(c[0], d[0], fmul(t, ec), fmul(t, ed));
    }
}

/// The polynomial rebuilt by reconstruction interpolates every share it
/// was built from: at each share's own evaluation point, the accumulated
/// coefficients take exactly that share's value.  Together with
/// `PointPolynomial::verify`'s contract, every input share is accepted
/// against the reconstructed commitment.  The inverse hypotheses are
/// exactly what `reconstruct` guarantees on success.
pub proof fn lemma_reconstruction_interpolates(range: Seq<nat>, vals: Seq<nat>, m: int)
    requires
        range.len() == vals.len(),
        0 <= m < range.len(),
        vals[m] < field_r(),
        forall|i: int| 0 <= i < range.len()
            ==> fmul(inv_of(#[trigger] bar_den(range, i)), bar_den(range, i)) == 1,
    ensures
        poly_eval(recon_coefs(range, vals), range[m]) == vals[m],
{
    let n = range.len() as int;
    let t = range[m];
    lemma_recon_partial_eval(range, vals, m, n);
    assert(recon_coefs(range, vals) =~= Seq::new(n as nat, |j: int| recon_upto(range, vals, j, n)));
}

/// The evaluation of the partially accumulated reconstruction at node `m`:
/// zero until share `m` has been folded in, the share's value afterwards.
proof fn lemma_recon_partial_eval(range: Seq<nat>, vals: Seq<nat>, m: int, k: int)
    requires
        range.len() == vals.len(),
        0 <= m < range.len(),
        0 <= k <= range.len(),
        vals[m] < field_r(),
        forall|i: int| 0 <= i < range.len()
            ==> fmul(inv_of(#[trigger] bar_den(range, i)), bar_den(range, i)) == 1,
    ensures
        poly_eval(Seq::new(range.len(), |j: int| recon_upto(range, vals, j, k)), range[m])
            == if k > m {
                vals[m]
            } else {
                0
            },
    decreases k,
{
    crate::algebra::lemma_field_r_bounds();
    let n = range.len() as int;
    let t = range[m];
    let pc = Seq::new(n as nat, |j: int| recon_upto(range, vals, j, k));
    if k == 0 {
        lemma_eval_zero_seq(pc, t);
    } else {
        lemma_recon_partial_eval(range, vals, m, k - 1);
        let prev = Seq::new(n as nat, |j: int| recon_upto(range, vals, j, k - 1));
        let i = k - 1;
        let u = inv_of(bar_den(range, i));
        let g = fmul(vals[i], u);
        let np = lag_np(range, i);
        lemma_lag_np_upto_len(range, i, n);
        assert(np.len() == n);
        let av = Seq::new(n as nat, |j: int| fmul(g, np[j]));
        // One accumulation step adds the scaled numerator polynomial.
        assert forall|j: int| 0 <= j < n
            implies #[trigger] pc[j] == fadd(prev[j], av[j]) by {
            crate::algebra::lemma_fmul_assoc(vals[i], np[j], u);
            crate::algebra::lemma_fmul_comm(np[j], u);
            crate::algebra::lemma_fmul_assoc(vals[i], u, np[j]);
        }
        assert(pc =~= Seq::new(prev.len(), |j: int| fadd(prev[j], av[j])));
        lemma_eval_pointwise_add(prev, av, t);
        // The added polynomial is the lift of the numerator polynomial.
        assert(av =~= np.map(|j: int, c: nat| fmul(g, c)));
        lemma_lift_evaluate(np, g, t);
        lemma_lag_np_eval(range, i, n, t);
        if i == m {
            // The own term contributes exactly the share value.
            lemma_lin_prod_at_own(range, i, n);
            assert(poly_eval(np, t) == bar_den(range, i));
            crate::algebra::lemma_fmul_assoc(vals[i], u, bar_den(range, i));
            vstd::arithmetic::div_mod::lemma_small_mod(vals[m], field_r());
            assert(vals[m] * 1 == vals[m]) by (nonlinear_arith);
            assert(fmul(vals[m], 1) == vals[m]);
            assert(poly_eval(av, t) == vals[m]);
            crate::algebra::lemma_fadd_zero(vals[m]);
        } else {
            // Every other term vanishes at this node.
            lemma_lin_prod_zero(range, i, n, m);
            crate::algebra::lemma_fmul_zero(g);
            assert(poly_eval(av, t) == 0);
            if k - 1 > m {
                crate::algebra::lemma_fadd_zero(vals[m]);
            } else {
                crate::algebra::lemma_fadd_zero(0);
            }
        }
    }
}

/// The quotient of a polynomial by the monic linear factor `t - x`:
/// coefficient `k` is the Horner tail of the coefficients above `k`.
pub open spec fn sdiv(f: Seq<nat>, x: nat) -> Seq<nat> {
    Seq::new((f.len() - 1) as nat, |k: int| poly_eval(f.skip(k + 1), x))
}

/// Division with remainder by `t - x`: at any point `t`, a polynomial is
/// its quotient times `t - x`, plus its value at `x`.
pub proof fn lemma_sdiv_eval(f: Seq<nat>, x: nat, t: nat)
    requires
        f.len() >= 1,
        forall|j: int| 0 <= j < f.len() ==> #[trigger] f[j] < field_r(),
    ensures
        poly_eval(f, t) == fadd(fmul(fsub(t, x), poly_eval(sdiv(f, x), t)), poly_eval(f, x)),
    decreases f.len(),
{
    crate::algebra::lemma_field_r_bounds();
    let q = sdiv(f, x);
    if f.len() == 1 {
        assert(q =~= Seq::<nat>::empty());
        assert(f.drop_first() =~= Seq::<nat>::empty());
        crate::algebra::lemma_fmul_zero(t);
        crate::algebra::lemma_fmul_zero(x);
        crate::algebra::lemma_fmul_zero(fsub(t, x));
        crate::algebra::lemma_fadd_zero(f[0]);
        assert(poly_eval(f, t) == f[0]);
        assert(poly_eval(f, x) == f[0]);
        crate::algebra::lemma_fadd_zero(poly_eval(f, x));
    } else {
        let f2 = f.drop_first();
        lemma_sdiv_eval(f2, x, t);
        let q2 = sdiv(f2, x);
        assert(q.drop_first() =~= q2) by {
            assert forall|k: int| 0 <= k < q2.len() implies q.drop_first()[k] == q2[k] by {
                assert(f.skip(k + 2) =~= f2.skip(k + 1));
            }
        }
        assert(q[0] == poly_eval(f2, x)) by {
            assert(f.skip(1) =~= f2);
        }
        let e2t = poly_eval(f2, t);
        let e2x = poly_eval(f2, x);
        let eq2 = poly_eval(q2, t);
        assert(e2t == fadd(fmul(fsub(t, x), eq2), e2x));
        assert(poly_eval(q, t) == fadd(e2x, fmul(t, eq2)));
        assert(poly_eval(f, t) == fadd(f[0], fmul(t, e2t)));
        assert(poly_eval(f, x) == fadd(f[0], fmul(x, e2x)));
        // Integer shadows.
        let f0 = f[0] as int;
        let ti = t as int;
        let xi = x as int;
        let e2ti = e2t as int;
        let e2xi = e2x as int;
        let eq2i = eq2 as int;
        crate::algebra::lemma_fsub_cong(t, x);
        crate::algebra::lemma_fmul_cong(fsub(t, x), eq2);
        crate::algebra::lemma_cong_mul(fsub(t, x) as int, eq2i, ti - xi, eq2i);
        crate::algebra::lemma_fadd_cong(fmul(fsub(t, x), eq2), e2x);
        crate::algebra::lemma_cong_add(
            fmul(fsub(t, x), eq2) as int,
            e2xi,
            (ti - xi) * eq2i,
            e2xi,
        );
        assert(cong(e2ti, (ti - xi) * eq2i + e2xi));
        // The left side.
        crate::algebra::lemma_fmul_cong(t, e2t);
        crate::algebra::lemma_cong_mul(ti, e2ti, ti, (ti - xi) * eq2i + e2xi);
        crate::algebra::lemma_fadd_cong(f[0], fmul(t, e2t));
        crate::algebra::lemma_cong_add(
            f0,
            fmul(t, e2t) as int,
            f0,
            ti * ((ti - xi) * eq2i + e2xi),
        );
        // The right side.
        crate::algebra::lemma_fmul_cong(t, eq2);
        crate::algebra::lemma_cong_add(e2xi, fmul(t, eq2) as int, e2xi, ti * eq2i);
        crate::algebra::lemma_fadd_cong(e2x, fmul(t, eq2));
        crate::algebra::lemma_cong_mul(
            fsub(t, x) as int,
            poly_eval(q, t) as int,
            ti - xi,
            e2xi + ti * eq2i,
        );
        crate::algebra::lemma_fmul_cong(fsub(t, x), poly_eval(q, t));
        crate::algebra::lemma_fmul_cong(x, e2x);
        crate::algebra::lemma_cong_add(f0, fmul(x, e2x) as int, f0, xi * e2xi);
        crate::algebra::lemma_fadd_cong(f[0], fmul(x, e2x));
        crate::algebra::lemma_cong_add(
            fmul(fsub(t, x), poly_eval(q, t)) as int,
            poly_eval(f, x) as int,
            (ti - xi) * (e2xi + ti * eq2i),
            f0 + xi * e2xi,
        );
        crate::algebra::lemma_fadd_cong(fmul(fsub(t, x), poly_eval(q, t)), poly_eval(f, x));
        // The two integer polynomials agree.
        assert(f0 + ti * ((ti - xi) * eq2i + e2xi)
            == (ti - xi) * (e2xi + ti * eq2i) + (f0 + xi * e2xi)) by (nonlinear_arith);
        crate::algebra::lemma_cong_eq(
            poly_eval(f, t),
            fadd(fmul(fsub(t, x), poly_eval(q, t)), poly_eval(f, x)),
        );
    }
}

/// Evaluation is subtractive in the coefficients.
pub proof fn lemma_eval_pointwise_sub(c: Seq<nat>, d: Seq<nat>, t: nat)
    requires
        c.len() == d.len(),
    ensures
        poly_eval(Seq::new(c.len(), |j: int| fsub(c[j], d[j])), t)
            == fsub(poly_eval(c, t), poly_eval(d, t)),
    decreases c.len(),
{
    crate::algebra::lemma_field_r_bounds();
    let s = Seq::new(c.len(), |j: int| fsub(c[j], d[j]));
    if c.len() == 0 {
        crate::algebra::lemma_fsub_self(0);
    } else {
        lemma_eval_pointwise_sub(c.drop_first(), d.drop_first(), t);
        assert(s.drop_first() =~= Seq::new(
            c.drop_first().len(),
            |j: int| fsub(c.drop_first()[j], d.drop_first()[j]),
        ));
        let ec = poly_eval(c.drop_first(), t);
        let ed = poly_eval(d.drop_first(), t);
        // Push every reduction out and compare the integer expressions.
        crate::algebra::lemma_fsub_cong(c[0], d[0]);
        crate::algebra::lemma_fsub_cong(ec, ed);
        crate::algebra::lemma_fmul_cong(t, fsub(ec, ed));
        crate::algebra::lemma_cong_mul(
            t as int,
            fsub(ec, ed) as int,
            t as int,
            ec - ed,
        );
        crate::algebra::lemma_fadd_cong(fsub(c[0], d[0]), fmul(t, fsub(ec, ed)));
        crate::algebra::lemma_cong_add(
            fsub(c[0], d[0]) as int,
            fmul(t, fsub(ec, ed)) as int,
            c[0] - d[0],
            t * (ec - ed),
        );
        crate::algebra::lemma_fmul_cong(t, ec);
        crate::algebra::lemma_fmul_cong(t, ed);
        crate::algebra::lemma_fadd_cong(c[0], fmul(t, ec));
        crate::algebra::lemma_fadd_cong(d[0], fmul(t, ed));
        crate::algebra::lemma_cong_add(c[0] as int, fmul(t, ec) as int, c[0] as int, (t * ec) as int);
        crate::algebra::lemma_cong_add(d[0] as int, fmul(t, ed) as int, d[0] as int, (t * ed) as int);
        crate::algebra::lemma_fsub_cong(poly_eval(c, t), poly_eval(d, t));
        crate::algebra::lemma_cong_sub(
            poly_eval(c, t) as int,
            poly_eval(d, t) as int,
            (c[0] + t * ec) as int,
            (d[0] + t * ed) as int,
        );
        assert((c[0] - d[0]) + t * (ec - ed) == (c[0] + t * ec) - (d[0] + t * ed))
            by (nonlinear_arith);
        crate::algebra::lemma_cong_eq(
            poly_eval(s, t),
            fsub(poly_eval(c, t), poly_eval(d, t)),
        );
    }
}

/// Whether every point before position `m`, the first aside, differs
/// invertibly from the first.
pub open spec fn head_invertible_upto(pts: Seq<nat>, m: int) -> bool
    decreases m,
{
    m <= 1 || ((exists|u: nat| #[trigger] fmul(u, fsub(pts[m - 1], pts[0])) == 1)
        && head_invertible_upto(pts, m - 1))
}

/// Whether the difference of any two of the points, later minus earlier,
/// has a multiplicative inverse: every point differs invertibly from the
/// first, and the rest are again pairwise invertible.
pub open spec fn pairwise_invertible(pts: Seq<nat>) -> bool
    decreases pts.len(),
{
    pts.len() == 0 || (head_invertible_upto(pts, pts.len() as int)
        && pairwise_invertible(pts.drop_first()))
}

/// Extracts one pair's inverse from the recursive bundle.
proof fn lemma_head_invertible_get(pts: Seq<nat>, m: int, b: int)
    requires
        head_invertible_upto(pts, m),
        0 < b < m,
    ensures
        exists|u: nat| #[trigger] fmul(u, fsub(pts[b], pts[0])) == 1,
    decreases m,
{
    if b < m - 1 {
        lemma_head_invertible_get(pts, m - 1, b);
    }
}

/// A reduced-coefficient polynomial that vanishes at at least as many
/// points as it has coefficients — points whose pairwise differences are
/// invertible — is zero in every coefficient.
pub proof fn lemma_vanishing_poly_is_zero(h: Seq<nat>, pts: Seq<nat>)
    requires
        h.len() <= pts.len(),
        forall|j: int| 0 <= j < h.len() ==> #[trigger] h[j] < field_r(),
        forall|i: int| 0 <= i < pts.len() ==> poly_eval(h, #[trigger] pts[i]) == 0,
        pairwise_invertible(pts),
    ensures
        forall|k: int| 0 <= k < h.len() ==> #[trigger] h[k] == 0,
    decreases h.len(),
{
    crate::algebra::lemma_field_r_bounds();
    if h.len() > 0 {
        let x = pts[0];
        let q = sdiv(h, x);
        let rest = pts.drop_first();
        // The quotient's coefficients are Horner values, hence reduced.
        assert forall|k: int| 0 <= k < q.len() implies #[trigger] q[k] < field_r() by {
            if h.skip(k + 1).len() == 0 {
                assert(poly_eval(h.skip(k + 1), x) == 0);
            }
        }
        // The quotient vanishes at every remaining point.
        assert forall|i: int| 0 <= i < rest.len()
            implies poly_eval(q, #[trigger] rest[i]) == 0 by {
            let t = pts[i + 1];
            assert(rest[i] == t);
            lemma_sdiv_eval(h, x, t);
            let d = fsub(t, x);
            let eq = poly_eval(q, t);
            assert(poly_eval(h, x) == 0);
            assert(poly_eval(h, t) == 0);
            crate::algebra::lemma_fmul_bound(d, eq);
            crate::algebra::lemma_fadd_zero(fmul(d, eq));
            assert(fmul(d, eq) == 0);
            // Cancel the invertible difference.
            lemma_head_invertible_get(pts, pts.len() as int, i + 1);
            let u = choose|u: nat| #[trigger] fmul(u, fsub(pts[i + 1], pts[0])) == 1;
            crate::algebra::lemma_fmul_comm(u, d);
            crate::algebra::lemma_fmul_assoc(eq, d, u);
            crate::algebra::lemma_fmul_comm(eq, d);
            crate::algebra::lemma_fmul_comm(fmul(d, eq), u);
            crate::algebra::lemma_fmul_zero(u);
            // eq == eq * (d * u) == (d * eq) * u == 0.
            if q.len() == 0 {
                assert(eq == 0);
            } else {
                assert(eq < field_r());
                assert(eq * 1 == eq) by (nonlinear_arith);
                vstd::arithmetic::div_mod::lemma_small_mod(eq, field_r());
                assert(fmul(eq, 1) == eq);
                assert(fmul(eq, fmul(d, u)) == eq);
                assert(fmul(fmul(eq, d), u) == eq);
                assert(fmul(fmul(d, eq), u) == eq);
                assert(fmul(0, u) == 0);
            }
        }
        // The remaining points inherit the pairwise inverses by definition.
        assert(pairwise_invertible(rest));
        lemma_vanishing_poly_is_zero(q, rest);
        // Back-substitution: every coefficient is zero.
        assert(h.drop_first() =~= h.skip(1));
        assert forall|k: int| 0 <= k < h.len() implies #[trigger] h[k] == 0 by {
            crate::algebra::lemma_fmul_zero(x);
            crate::algebra::lemma_fadd_zero(h[k]);
            if k == 0 {
                // h(x) = h[0] + x * q[0]-tail, and the tail is zero.
                if h.len() == 1 {
                    assert(poly_eval(h.skip(1), x) == 0);
                } else {
                    assert(q[0] == poly_eval(h.skip(1), x));
                    assert(poly_eval(h.skip(1), x) == 0);
                }
                assert(poly_eval(h, x) == fadd(h[0], fmul(x, poly_eval(h.skip(1), x))));
            } else {
                // q[k-1] = h[k] + x * (next tail), and both sides are zero.
                assert(q[k - 1] == poly_eval(h.skip(k), x));
                assert(q[k - 1] == 0);
                if k == h.len() - 1 {
                    assert(h.skip(k + 1).len() == 0);
                    assert(poly_eval(h.skip(k + 1), x) == 0);
                } else {
                    assert(q[k] == poly_eval(h.skip(k + 1), x));
                    assert(q[k] == 0);
                }
                assert(h.skip(k)[0] == h[k]);
                assert(h.skip(k).drop_first() =~= h.skip(k + 1));
                assert(poly_eval(h.skip(k), x)
                    == fadd(h[k], fmul(x, poly_eval(h.skip(k + 1), x))));
            }
        }
    }
}

/// The barycentric denominator of node `i` contains `range[i] - range[a]`
/// as a factor, for any other position `a`.
proof fn lemma_bar_den_factor(range: Seq<nat>, i: int, a: int, n: int)
    requires
        0 <= a < n,
        a != i,
    ensures
        exists|rest: nat|
            bar_den_upto(range, i, n) == fmul(rest, #[trigger] fsub(range[i], range[a])),
    decreases n,
{
    let f = fsub(range[i], range[a]);
    if n - 1 == a {
        assert(bar_den_upto(range, i, n) == fmul(bar_den_upto(range, i, n - 1), f));
    } else if n - 1 == i {
        lemma_bar_den_factor(range, i, a, n - 1);
    } else {
        lemma_bar_den_factor(range, i, a, n - 1);
        let rest0 = choose|rest: nat|
            bar_den_upto(range, i, n - 1) == fmul(rest, #[trigger] fsub(range[i], range[a]));
        let g = fsub(range[i], range[n - 1]);
        crate::algebra::lemma_fmul_assoc(rest0, f, g);
        crate::algebra::lemma_fmul_comm(f, g);
        crate::algebra::lemma_fmul_assoc(rest0, g, f);
        assert(bar_den_upto(range, i, n) == fmul(fmul(rest0, g), f));
    }
}

/// Any two distinct evaluation points with invertible barycentric
/// denominators differ invertibly.
proof fn lemma_pair_inverse(range: Seq<nat>, a: int, b: int)
    requires
        0 <= a < range.len(),
        0 <= b < range.len(),
        a != b,
        fmul(inv_of(bar_den(range, b)), bar_den(range, b)) == 1,
    ensures
        exists|u: nat| #[trigger] fmul(u, fsub(range[b], range[a])) == 1,
{
    lemma_bar_den_factor(range, b, a, range.len() as int);
    let rest = choose|rest: nat|
        bar_den_upto(range, b, range.len() as int)
            == fmul(rest, #[trigger] fsub(range[b], range[a]));
    let ub = inv_of(bar_den(range, b));
    let f = fsub(range[b], range[a]);
    crate::algebra::lemma_fmul_assoc(ub, rest, f);
    assert(fmul(fmul(ub, rest), f) == 1);
}

/// Evaluation points whose barycentric denominators are invertible are
/// pairwise invertible, over every suffix.
proof fn lemma_pairwise_suffix(range: Seq<nat>, k: int)
    requires
        0 <= k <= range.len(),
        forall|i: int| 0 <= i < range.len()
            ==> fmul(inv_of(#[trigger] bar_den(range, i)), bar_den(range, i)) == 1,
    ensures
        pairwise_invertible(range.skip(k)),
    decreases range.len() - k,
{
    let s = range.skip(k);
    if k < range.len() {
        lemma_pairwise_suffix(range, k + 1);
        assert(s.drop_first() =~= range.skip(k + 1));
        lemma_head_suffix(range, k, s.len() as int);
        assert(pairwise_invertible(s.drop_first()));
    } else {
        assert(s.len() == 0);
    }
}

/// Every point of the suffix at `k` up to position `m` differs invertibly
/// from the suffix's first point.
proof fn lemma_head_suffix(range: Seq<nat>, k: int, m: int)
    requires
        0 <= k < range.len(),
        m <= range.len() - k,
        forall|i: int| 0 <= i < range.len()
            ==> fmul(inv_of(#[trigger] bar_den(range, i)), bar_den(range, i)) == 1,
    ensures
        head_invertible_upto(range.skip(k), m),
    decreases m,
{
    let s = range.skip(k);
    if m > 1 {
        lemma_head_suffix(range, k, m - 1);
        lemma_pair_inverse(range, k, k + m - 1);
        assert(s[m - 1] == range[k + m - 1] && s[0] == range[k]);
        let u = choose|u: nat| #[trigger] fmul(u, fsub(range[k + m - 1], range[k])) == 1;
        assert(fmul(u, fsub(s[m - 1], s[0])) == 1);
    }
}

/// Coefficients padded with zeros evaluate unchanged.
proof fn lemma_eval_pad_zeros(coefs: Seq<nat>, n: nat, t: nat)
    requires
        coefs.len() <= n,
    ensures
        poly_eval(
            Seq::new(n, |j: int| if j < coefs.len() { coefs[j] } else { 0nat }),
            t,
        ) == poly_eval(coefs, t),
    decreases coefs.len(), n,
{
    crate::algebra::lemma_field_r_bounds();
    let cpad = Seq::new(n, |j: int| if j < coefs.len() { coefs[j] } else { 0nat });
    if coefs.len() == 0 {
        lemma_eval_zero_seq(cpad, t);
    } else {
        lemma_eval_pad_zeros(coefs.drop_first(), (n - 1) as nat, t);
        assert(cpad.drop_first() =~= Seq::new(
            (n - 1) as nat,
            |j: int| if j < coefs.drop_first().len() { coefs.drop_first()[j] } else { 0nat },
        ));
    }
}

/// Full-polynomial reconstruction is exact: when the shares are the
/// evaluations of a committed polynomial at the given points, the
/// accumulated coefficients are the committed coefficients, padded with
/// zeros above the committed degree.  The inverse hypotheses are exactly
/// what `reconstruct` guarantees on success; they force the points apart,
/// since a vanishing denominator has no inverse.
pub proof fn lemma_reconstruction_recovers_polynomial(
    range: Seq<nat>,
    vals: Seq<nat>,
    coefs: Seq<nat>,
)
    requires
        range.len() == vals.len(),
        coefs.len() <= range.len(),
        forall|j: int| 0 <= j < coefs.len() ==> #[trigger] coefs[j] < field_r(),
        forall|i: int| 0 <= i < range.len()
            ==> #[trigger] vals[i] == poly_eval(coefs, range[i]),
        forall|i: int| 0 <= i < range.len()
            ==> fmul(inv_of(#[trigger] bar_den(range, i)), bar_den(range, i)) == 1,
    ensures
        forall|j: int| 0 <= j < range.len()
            ==> #[trigger] recon_coefs(range, vals)[j] == if j < coefs.len() {
                coefs[j]
            } else {
                0
            },
{
    crate::algebra::lemma_field_r_bounds();
    let n = range.len();
    if n > 0 {
        let rc = recon_coefs(range, vals);
        let cpad = Seq::new(n, |j: int| if j < coefs.len() { coefs[j] } else { 0nat });
        let h = Seq::new(n, |j: int| fsub(rc[j], cpad[j]));
        // Every share value is reduced.
        assert forall|i: int| 0 <= i < n implies #[trigger] vals[i] < field_r() by {
            if coefs.len() == 0 {
                assert(poly_eval(coefs, range[i]) == 0);
            }
        }
        // The reconstructed coefficients are reduced.
        assert forall|j: int| 0 <= j < n implies #[trigger] rc[j] < field_r() by {
            assert(rc[j] == recon_upto(range, vals, j, n as int));
        }
        // The difference polynomial vanishes at every evaluation point.
        assert forall|i: int| 0 <= i < n
            implies poly_eval(h, #[trigger] range[i]) == 0 by {
            lemma_eval_pointwise_sub(rc, cpad, range[i]);
            lemma_reconstruction_interpolates(range, vals, i);
            lemma_eval_pad_zeros(coefs, n, range[i]);
            crate::algebra::lemma_fsub_self(vals[i]);
        }
        // The points are pairwise invertible, so the difference is zero.
        lemma_pairwise_suffix(range, 0);
        assert(range.skip(0) =~= range);
        lemma_vanishing_poly_is_zero(h, range);
        assert forall|j: int| 0 <= j < n
            implies #[trigger] rc[j] == (if j < coefs.len() { coefs[j] } else { 0nat }) by {
            assert(h[j] == 0);
            crate::algebra::lemma_fsub_zero_eq(rc[j], cpad[j]);
        }
    }
}

/// One linear factor can switch sides and signs: `x_j · (x_i - x_j)` and
/// `(0 - x_j) · (x_j - x_i)` are the same field value.
proof fn lemma_sign_factor(xi: nat, xj: nat)
    ensures
        fmul(xj, fsub(xi, xj)) == fmul(fsub(0, xj), fsub(xj, xi)),
{
    crate::algebra::lemma_field_r_bounds();
    crate::algebra::lemma_fsub_cong(xi, xj);
    crate::algebra::lemma_fsub_cong(xj, xi);
    crate::algebra::lemma_fsub_cong(0, xj);
    crate::algebra::lemma_fmul_cong(xj, fsub(xi, xj));
    crate::algebra::lemma_fmul_cong(fsub(0, xj), fsub(xj, xi));
    crate::algebra::lemma_cong_mul(xj as int, fsub(xi, xj) as int, xj as int, xi - xj);
    crate::algebra::lemma_cong_mul(fsub(0, xj) as int, fsub(xj, xi) as int, 0 - xj, xj - xi);
    assert((xj as int) * ((xi - xj) as int) == ((0 - xj) as int) * ((xj - xi) as int))
        by (nonlinear_arith);
    crate::algebra::lemma_cong_eq(
        fmul(xj, fsub(xi, xj)),
        fmul(fsub(0, xj), fsub(xj, xi)),
    );
}

/// The two Lagrange weight presentations agree up to cross-multiplication:
/// numerator times barycentric denominator equals the numerator polynomial
/// at zero times the interpolation denominator.  The sign flips of the two
/// denominator conventions cancel against those of the two numerators.
proof fn lemma_weights_cross(range: Seq<nat>, i: int, n: int)
    requires
        n >= 0,
    ensures
        fmul(lag_num_upto(range, i, n), bar_den_upto(range, i, n))
            == fmul(lin_prod_upto(range, i, n, 0), lag_den_upto(range, i, n)),
    decreases n,
{
    if n > 0 {
        lemma_weights_cross(range, i, n - 1);
        if n - 1 != i {
            let na = lag_num_upto(range, i, n - 1);
            let ba = bar_den_upto(range, i, n - 1);
            let la = lin_prod_upto(range, i, n - 1, 0);
            let da = lag_den_upto(range, i, n - 1);
            let xj = range[n - 1];
            let fb = fsub(range[i], xj);
            let fl = fsub(0, xj);
            let fd = fsub(xj, range[i]);
            crate::algebra::lemma_fmul_4(na, xj, ba, fb);
            crate::algebra::lemma_fmul_4(la, fl, da, fd);
            lemma_sign_factor(range[i], xj);
        }
    }
}

/// The constant term of the numerator polynomial stays reduced.
proof fn lemma_lag_np_first_reduced(range: Seq<nat>, i: int, n: int)
    requires
        n >= 0,
    ensures
        lag_np_upto(range, i, n).len() >= 1,
        lag_np_upto(range, i, n)[0] < field_r(),
    decreases n,
{
    crate::algebra::lemma_field_r_bounds();
    if n > 0 {
        lemma_lag_np_first_reduced(range, i, n - 1);
        if n - 1 != i {
            let prev = lag_np_upto(range, i, n - 1);
            let s = smul1(prev, crate::algebra::fneg(range[n - 1]));
            if prev.len() >= 2 {
                assert(s[0] == fmul(prev[0], crate::algebra::fneg(range[n - 1])));
            }
        }
    } else {
        vstd::arithmetic::div_mod::lemma_small_mod(1nat, field_r());
    }
}

/// At each node, the interpolation weight equals the share's coefficient
/// in the reconstruction of the constant term.
proof fn lemma_weight_eq_recon_term(range: Seq<nat>, i: int)
    requires
        0 <= i < range.len(),
        fmul(inv_of(lag_den(range, i)), lag_den(range, i)) == 1,
        fmul(inv_of(bar_den(range, i)), bar_den(range, i)) == 1,
    ensures
        lag_w(range, i) == fmul(lag_np(range, i)[0], inv_of(bar_den(range, i))),
{
    crate::algebra::lemma_field_r_bounds();
    let n = range.len() as int;
    let num = lag_num(range, i);
    let bar = bar_den(range, i);
    let den = lag_den(range, i);
    let ud = inv_of(den);
    let ub = inv_of(bar);
    let np = lag_np(range, i);
    let lin0 = lin_prod_upto(range, i, n, 0);
    // The constant term of the numerator polynomial is its value at zero.
    lemma_lag_np_eval(range, i, n, 0);
    lemma_lag_np_first_reduced(range, i, n);
    assert(np[0] * 0 == 0) by (nonlinear_arith);
    crate::algebra::lemma_fmul_zero(0);
    crate::algebra::lemma_fadd_zero(np[0]);
    assert(poly_eval(np, 0) == fadd(np[0], fmul(0, poly_eval(np.drop_first(), 0)))) by {
        assert(0 * poly_eval(np.drop_first(), 0) == 0);
        vstd::arithmetic::div_mod::lemma_small_mod(0, field_r());
    }
    assert(fmul(0, poly_eval(np.drop_first(), 0)) == 0) by {
        assert(0 * poly_eval(np.drop_first(), 0) == 0);
        vstd::arithmetic::div_mod::lemma_small_mod(0, field_r());
    }
    assert(np[0] == lin0);
    // Cross-multiplied weight identity, with both inverses applied.
    lemma_weights_cross(range, i, n);
    assert(fmul(num, bar) == fmul(lin0, den));
    crate::algebra::lemma_fmul_4(num, bar, ud, ub);
    crate::algebra::lemma_fmul_4(lin0, den, ud, ub);
    // Regroup each side so every denominator meets its inverse.
    crate::algebra::lemma_fmul_comm(bar, ub);
    crate::algebra::lemma_fmul_comm(den, ud);
    crate::algebra::lemma_fmul_4(num, ud, bar, ub);
    crate::algebra::lemma_fmul_4(lin0, ub, den, ud);
    crate::algebra::lemma_fmul_comm(ud, ub);
    // fmul(a, 1) == a for the two reduced products.
    let w = fmul(num, ud);
    let rterm = fmul(lin0, ub);
    assert(w * 1 == w) by (nonlinear_arith);
    assert(rterm * 1 == rterm) by (nonlinear_arith);
    vstd::arithmetic::div_mod::lemma_small_mod(w, field_r());
    vstd::arithmetic::div_mod::lemma_small_mod(rterm, field_r());
    assert(fmul(w, 1) == w);
    assert(fmul(rterm, 1) == rterm);
    assert(fmul(fmul(num, ud), fmul(bar, ub)) == fmul(fmul(lin0, ub), fmul(den, ud)));
}

/// The Lagrange interpolation at zero is the constant term of the
/// reconstructed polynomial, sum prefix by sum prefix.
proof fn lemma_interp_eq_recon0(range: Seq<nat>, vals: Seq<nat>, k: int)
    requires
        0 <= k <= range.len(),
        range.len() == vals.len(),
        forall|i: int| 0 <= i < range.len()
            ==> fmul(inv_of(#[trigger] lag_den(range, i)), lag_den(range, i)) == 1,
        forall|i: int| 0 <= i < range.len()
            ==> fmul(inv_of(#[trigger] bar_den(range, i)), bar_den(range, i)) == 1,
    ensures
        interp_upto(range, vals, k) == recon_upto(range, vals, 0, k),
    decreases k,
{
    if k > 0 {
        lemma_interp_eq_recon0(range, vals, k - 1);
        lemma_weight_eq_recon_term(range, k - 1);
        crate::algebra::lemma_fmul_comm(lag_w(range, k - 1), vals[k - 1]);
        crate::algebra::lemma_fmul_comm(
            fmul(lag_np(range, k - 1)[0], inv_of(bar_den(range, k - 1))),
            vals[k - 1],
        );
    }
}

/// Shamir reconstruction: interpolating the shares of a committed
/// polynomial at its own evaluation points recovers the secret constant
/// term, for any degree below the number of shares.  The inverse
/// hypotheses are exactly what `interpolate` and `reconstruct` guarantee
/// on success; they force the evaluation points apart, since a vanishing
/// denominator has no inverse.
pub proof fn lemma_interpolation_recovers_secret(
    range: Seq<nat>,
    vals: Seq<nat>,
    coefs: Seq<nat>,
)
    requires
        range.len() == vals.len(),
        1 <= coefs.len() <= range.len(),
        forall|j: int| 0 <= j < coefs.len() ==> #[trigger] coefs[j] < field_r(),
        forall|i: int| 0 <= i < range.len()
            ==> #[trigger] vals[i] == poly_eval(coefs, range[i]),
        forall|i: int| 0 <= i < range.len()
            ==> fmul(inv_of(#[trigger] lag_den(range, i)), lag_den(range, i)) == 1,
        forall|i: int| 0 <= i < range.len()
            ==> fmul(inv_of(#[trigger] bar_den(range, i)), bar_den(range, i)) == 1,
    ensures
        interp(range, vals) == coefs[0],
{
    let n = range.len() as int;
    lemma_interp_eq_recon0(range, vals, n);
    lemma_reconstruction_recovers_polynomial(range, vals, coefs);
    assert(recon_coefs(range, vals)[0] == recon_upto(range, vals, 0, n));
    assert(recon_coefs(range, vals)[0] == coefs[0]);
}

} // verus!
