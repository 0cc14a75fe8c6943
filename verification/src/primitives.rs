//! Field scalars and curve points, carried as their canonical byte encodings.
//!
//! Every value of [`Scalar`], [`G1Elem`] and [`G2Elem`] holds the canonical
//! encoding that the curve library itself produces, so a type invariant ties
//! each value to its mathematical model: a scalar to its integer below
//! `field_r()`, a point to its discrete logarithm with respect to the
//! standard generator of its group.  The arithmetic itself is done by the
//! `bls12_381` crate behind trusted wrappers; everything else in the crate
//! is verified against the contracts stated here.

use vstd::prelude::*;
use sha2::Digest;
use rand::RngExt;
use crate::algebra::{field_r, fadd, fsub, fmul, fneg, le_val};

verus! {

/// The SHA-512 digest of a byte string.  Relied on to be a function of the
/// input alone; only `sha512` applies it.
pub uninterp spec fn sha512_of(data: Seq<u8>) -> Seq<u8>;

/// The multiplicative inverse of a nonzero scalar-field value.  Relied on to
/// be a function of the value alone; only `Scalar::invert` applies it.
pub uninterp spec fn inv_of(a: nat) -> nat;

/// The discrete logarithm, with respect to the standard generator of the
/// source group, of the point whose compressed encoding is `b`.
pub uninterp spec fn dlog1(b: Seq<u8>) -> nat;

/// The 48-byte compressed encoding of `x` times the standard generator of
/// the source group.
pub uninterp spec fn g1_bytes_of(x: nat) -> Seq<u8>;

/// The discrete logarithm, with respect to the standard generator of the
/// pairing-side group, of the point whose compressed encoding is `b`.
pub uninterp spec fn dlog2(b: Seq<u8>) -> nat;

/// The 96-byte compressed encoding of `x` times the standard generator of
/// the pairing-side group.
pub uninterp spec fn g2_bytes_of(x: nat) -> Seq<u8>;

/// The wide hash of a byte string reduced to a scalar-field value: the
/// SHA-512 digest read as a little-endian integer, modulo the field order.
pub open spec fn hash_of(data: Seq<u8>) -> nat {
    le_val(sha512_of(data)) % field_r()
}

/// An element of the BLS12-381 scalar field, held as its canonical
/// little-endian byte encoding.  Scalars are secret-adjacent: call
/// [`Scalar::wipe`] when a secret value is no longer needed.
#[derive(Clone, Copy, Debug)]
pub struct Scalar {
    pub(crate) b: [u8; 32],
}

/// An element of the source curve group, held as its 48-byte compressed
/// encoding.
#[derive(Clone, Copy, Debug)]
pub struct G1Elem {
    pub(crate) b: [u8; 48],
}

/// An element of the pairing-side curve group, held as its 96-byte
/// compressed encoding.
#[derive(Clone, Copy, Debug)]
pub struct G2Elem {
    pub(crate) b: [u8; 96],
}

impl Scalar {
    /// The field value this scalar encodes.
    pub closed spec fn v(self) -> nat {
        le_val(self.b@)
    }

    /// The canonical byte encoding of this scalar.
    pub closed spec fn bytes(self) -> Seq<u8> {
        self.b@
    }

    #[verifier::type_invariant]
    pub(crate) open spec fn inv(self) -> bool {
        le_val(self.b@) < field_r()
    }
}

impl G1Elem {
    /// The discrete logarithm of this point with respect to the standard
    /// generator of the source group.
    pub closed spec fn v(self) -> nat {
        dlog1(self.b@)
    }

    /// The compressed byte encoding of this point.
    pub closed spec fn bytes(self) -> Seq<u8> {
        self.b@
    }

    #[verifier::type_invariant]
    pub(crate) open spec fn inv(self) -> bool {
        dlog1(self.b@) < field_r() && self.b@ == g1_bytes_of(dlog1(self.b@))
    }
}

impl G2Elem {
    /// The discrete logarithm of this point with respect to the standard
    /// generator of the pairing-side group.
    pub closed spec fn v(self) -> nat {
        dlog2(self.b@)
    }

    /// The compressed byte encoding of this point.
    pub closed spec fn bytes(self) -> Seq<u8> {
        self.b@
    }

    #[verifier::type_invariant]
    pub(crate) open spec fn inv(self) -> bool {
        dlog2(self.b@) < field_r() && self.b@ == g2_bytes_of(dlog2(self.b@))
    }
}

/// The type invariant of a scalar, exported to the rest of the crate.
pub(crate) proof fn lemma_scalar_valid(s: Scalar)
    requires
        s.inv(),
    ensures
        s.v() < field_r(),
        s.bytes() == s.b@,
        s.bytes().len() == 32,
{
}

/// The type invariant of a source-group point, exported to the rest of the
/// crate.
pub(crate) proof fn lemma_g1_valid(p: G1Elem)
    requires
        p.inv(),
    ensures
        p.v() < field_r(),
        p.bytes() == g1_bytes_of(p.v()),
        p.bytes().len() == 48,
{
}

impl Scalar {
    /// Relies on `bls12_381::Scalar`: addition in the scalar field.
    #[verifier::external_body]
    pub fn add(&self, rhs: &Scalar) -> (r: Scalar)
        ensures
            r.v() == fadd(self.v(), rhs.v()),
    {
        let a = bls12_381::Scalar::from_bytes(&self.b).unwrap();
        let b = bls12_381::Scalar::from_bytes(&rhs.b).unwrap();
        Scalar { b: (a + b).to_bytes() }
    }

    /// Relies on `bls12_381::Scalar`: subtraction in the scalar field.
    #[verifier::external_body]
    pub fn sub(&self, rhs: &Scalar) -> (r: Scalar)
        ensures
            r.v() == fsub(self.v(), rhs.v()),
    {
        let a = bls12_381::Scalar::from_bytes(&self.b).unwrap();
        let b = bls12_381::Scalar::from_bytes(&rhs.b).unwrap();
        Scalar { b: (a - b).to_bytes() }
    }

    /// Relies on `bls12_381::Scalar`: multiplication in the scalar field.
    #[verifier::external_body]
    pub fn mul(&self, rhs: &Scalar) -> (r: Scalar)
        ensures
            r.v() == fmul(self.v(), rhs.v()),
    {
        let a = bls12_381::Scalar::from_bytes(&self.b).unwrap();
        let b = bls12_381::Scalar::from_bytes(&rhs.b).unwrap();
        Scalar { b: (a * b).to_bytes() }
    }

    /// Relies on `bls12_381::Scalar`: negation in the scalar field.
    #[verifier::external_body]
    pub fn neg(&self) -> (r: Scalar)
        ensures
            r.v() == fneg(self.v()),
    {
        let a = bls12_381::Scalar::from_bytes(&self.b).unwrap();
        Scalar { b: (-a).to_bytes() }
    }

    /// Relies on `bls12_381::Scalar::invert`: the multiplicative inverse of a
    /// nonzero field element; fails exactly on zero.
    #[verifier::external_body]
    pub(crate) fn invert(&self) -> (r: Option<Scalar>)
        ensures
            match r {
                Some(w) => self.v() != 0 && w.v() == inv_of(self.v())
                    && fmul(inv_of(self.v()), self.v()) == 1,
                None => self.v() == 0,
            },
    {
        let a = bls12_381::Scalar::from_bytes(&self.b).unwrap();
        let w = a.invert();
        if w.is_some().into() {
            Some(Scalar { b: w.unwrap().to_bytes() })
        } else {
            None
        }
    }

    /// Relies on `bls12_381::Scalar::from(u64)`: embeds a machine integer
    /// into the field (the field order exceeds `2^64`, so no reduction
    /// happens).
    #[verifier::external_body]
    pub fn from_u64(x: u64) -> (r: Scalar)
        ensures
            r.v() == x as nat,
    {
        Scalar { b: bls12_381::Scalar::from(x).to_bytes() }
    }

    /// Relies on `clear_on_drop`: overwrites the scalar with zero bytes so a
    /// secret does not linger in memory.
    #[verifier::external_body]
    pub fn wipe(&mut self)
        ensures
            final(self).v() == 0,
            forall|i: int| 0 <= i < 32 ==> final(self).bytes()[i] == 0,
    {
        <[u8; 32] as clear_on_drop::clear::Clear>::clear(&mut self.b);
    }

    /// The canonical little-endian byte encoding of this scalar.
    pub fn to_bytes(&self) -> (r: [u8; 32])
        ensures
            r@ == self.bytes(),
            le_val(r@) == self.v(),
            self.v() < field_r(),
    {
        proof {
            use_type_invariant(self);
        }
        self.b
    }

    /// Two scalars are equal exactly when they encode the same field value.
    pub fn equals(&self, other: &Scalar) -> (r: bool)
        ensures
            r == (self.v() == other.v()),
    {
        proof {
            use_type_invariant(self);
            use_type_invariant(other);
        }
        let mut i: usize = 0;
        while i < 32
            invariant
                i <= 32,
                forall|j: int| 0 <= j < i ==> self.b@[j] == other.b@[j],
            decreases 32 - i,
        {
            if self.b[i] != other.b[i] {
                proof {
                    if self.v() == other.v() {
                        crate::algebra::lemma_le_val_injective(self.b@, other.b@);
                    }
                }
                return false;
            }
            i += 1;
        }
        proof {
            assert(self.b@ =~= other.b@);
        }
        true
    }
}

/// A scalar drawn from the system randomness.  Relies on `rand` to fill 64
/// bytes and on `bls12_381::Scalar::from_bytes_wide` to reduce them; nothing
/// is promised of the value beyond validity.
#[verifier::external_body]
pub fn rnd_scalar() -> (r: Scalar)
    ensures
        r.v() < field_r(),
{
    let mut arr = [0u8; 64];
    rand::rng().fill(&mut arr);
    Scalar { b: bls12_381::Scalar::from_bytes_wide(&arr).to_bytes() }
}

/// Relies on `sha2::Sha512`: the 64-byte digest of `data`.
#[verifier::external_body]
pub(crate) fn sha512(data: &[u8]) -> (r: [u8; 64])
    ensures
        r@ == sha512_of(data@),
{
    let mut h = sha2::Sha512::new();
    h.update(data);
    let out = h.finalize();
    let mut r = [0u8; 64];
    r.copy_from_slice(&out);
    r
}

/// Relies on `bls12_381::Scalar::from_bytes_wide`: reduces a 512-bit
/// little-endian integer modulo the field order.
#[verifier::external_body]
pub(crate) fn scalar_from_wide(d: &[u8; 64]) -> (r: Scalar)
    ensures
        r.v() == le_val(d@) % field_r(),
{
    Scalar { b: bls12_381::Scalar::from_bytes_wide(d).to_bytes() }
}

/// The wide-hash-to-scalar reduction: hash with SHA-512, then reduce the
/// digest modulo the field order.  All transcript hashing in the crate goes
/// through this function.
pub fn hash_to_scalar(data: &[u8]) -> (r: Scalar)
    ensures
        r.v() == hash_of(data@),
{
    let d = sha512(data);
    scalar_from_wide(&d)
}

impl G1Elem {
    /// Relies on `bls12_381::G1Affine::generator`: the standard generator of
    /// the source group, whose discrete logarithm is 1 by definition.
    #[verifier::external_body]
    pub fn generator() -> (r: G1Elem)
        ensures
            r.v() == 1,
            r.bytes() == g1_bytes_of(1),
            dlog1(r.bytes()) == 1,
    {
        G1Elem { b: bls12_381::G1Affine::generator().to_compressed() }
    }

    /// Relies on `bls12_381::G1Affine::identity`: the identity of the source
    /// group, whose discrete logarithm is 0.
    #[verifier::external_body]
    pub fn identity() -> (r: G1Elem)
        ensures
            r.v() == 0,
            r.bytes() == g1_bytes_of(0),
    {
        G1Elem { b: bls12_381::G1Affine::identity().to_compressed() }
    }

    /// Relies on `bls12_381` source-group addition; discrete logarithms add.
    /// Decompression cannot fail: the byte field always holds a canonical
    /// encoding.
    #[verifier::external_body]
    pub fn add(&self, rhs: &G1Elem) -> (r: G1Elem)
        ensures
            r.v() == fadd(self.v(), rhs.v()),
    {
        let a = bls12_381::G1Affine::from_compressed(&self.b).unwrap();
        let b = bls12_381::G1Affine::from_compressed(&rhs.b).unwrap();
        let s = bls12_381::G1Projective::from(a) + bls12_381::G1Projective::from(b);
        G1Elem { b: bls12_381::G1Affine::from(s).to_compressed() }
    }

    /// Relies on `bls12_381` source-group subtraction; discrete logarithms
    /// subtract.
    #[verifier::external_body]
    pub fn sub(&self, rhs: &G1Elem) -> (r: G1Elem)
        ensures
            r.v() == fsub(self.v(), rhs.v()),
    {
        let a = bls12_381::G1Affine::from_compressed(&self.b).unwrap();
        let b = bls12_381::G1Affine::from_compressed(&rhs.b).unwrap();
        let s = bls12_381::G1Projective::from(a) - bls12_381::G1Projective::from(b);
        G1Elem { b: bls12_381::G1Affine::from(s).to_compressed() }
    }

    /// Relies on `bls12_381` scalar multiplication in the source group;
    /// discrete logarithms multiply.
    #[verifier::external_body]
    pub fn mul(&self, s: &Scalar) -> (r: G1Elem)
        ensures
            r.v() == fmul(self.v(), s.v()),
    {
        let p = bls12_381::G1Affine::from_compressed(&self.b).unwrap();
        let k = bls12_381::Scalar::from_bytes(&s.b).unwrap();
        G1Elem { b: bls12_381::G1Affine::from(p * k).to_compressed() }
    }

    /// The compressed byte encoding of this point, as used in hash
    /// transcripts.
    pub fn compressed(&self) -> (r: [u8; 48])
        ensures
            r@ == self.bytes(),
            r@ == g1_bytes_of(self.v()),
            self.v() < field_r(),
    {
        proof {
            use_type_invariant(self);
        }
        self.b
    }

    /// Two points are equal exactly when their discrete logarithms agree:
    /// the compressed encoding is a function of the point.
    pub fn equals(&self, other: &G1Elem) -> (r: bool)
        ensures
            r == (self.v() == other.v()),
    {
        proof {
            use_type_invariant(self);
            use_type_invariant(other);
        }
        let mut i: usize = 0;
        while i < 48
            invariant
                i <= 48,
                forall|j: int| 0 <= j < i ==> self.b@[j] == other.b@[j],
            decreases 48 - i,
        {
            if self.b[i] != other.b[i] {
                proof {
                    use_type_invariant(self);
                    use_type_invariant(other);
                    if self.v() == other.v() {
                        assert(self.b@ == g1_bytes_of(self.v()));
                        assert(other.b@ == g1_bytes_of(other.v()));
                        assert(self.b@[i as int] == other.b@[i as int]);
                    }
                }
                return false;
            }
            i += 1;
        }
        proof {
            assert(self.b@ =~= other.b@);
        }
        true
    }
}

impl G2Elem {
    /// Relies on `bls12_381::G2Affine::generator`: the standard generator of
    /// the pairing-side group, whose discrete logarithm is 1 by definition.
    #[verifier::external_body]
    pub fn generator() -> (r: G2Elem)
        ensures
            r.v() == 1,
            r.bytes() == g2_bytes_of(1),
            dlog2(r.bytes()) == 1,
    {
        G2Elem { b: bls12_381::G2Affine::generator().to_compressed() }
    }

    /// Relies on `bls12_381` scalar multiplication in the pairing-side
    /// group; discrete logarithms multiply.
    #[verifier::external_body]
    pub fn mul(&self, s: &Scalar) -> (r: G2Elem)
        ensures
            r.v() == fmul(self.v(), s.v()),
    {
        let p = bls12_381::G2Affine::from_compressed(&self.b).unwrap();
        let k = bls12_381::Scalar::from_bytes(&s.b).unwrap();
        G2Elem { b: bls12_381::G2Affine::from(p * k).to_compressed() }
    }
}

/// Relies on `bls12_381::pairing` and on bilinearity: `e(a, p) == e(b, q)`
/// holds exactly when the products of the discrete logarithms agree modulo
/// the field order, because the pairing is non-degenerate and the target
/// group has prime order.
#[verifier::external_body]
pub(crate) fn pairing_eq(a: &G1Elem, p: &G2Elem, b: &G1Elem, q: &G2Elem) -> (r: bool)
    ensures
        r == (fmul(a.v(), p.v()) == fmul(b.v(), q.v())),
{
    let pa = bls12_381::G1Affine::from_compressed(&a.b).unwrap();
    let qa = bls12_381::G2Affine::from_compressed(&p.b).unwrap();
    let pb = bls12_381::G1Affine::from_compressed(&b.b).unwrap();
    let qb = bls12_381::G2Affine::from_compressed(&q.b).unwrap();
    bls12_381::pairing(&pa, &qa) == bls12_381::pairing(&pb, &qb)
}

/// Relies on `bls12_381::multi_miller_loop` with a shared prepared base:
/// one combined final exponentiation evaluates `e(x, base) * e(y, base)`,
/// which equals `e(p, q)` exactly when the sums of the discrete-logarithm
/// products agree modulo the field order.
#[verifier::external_body]
pub(crate) fn multi_pairing_check(p: &G1Elem, q: &G2Elem, x: &G1Elem, y: &G1Elem, base: &G2Elem) -> (r: bool)
    ensures
        r == (fmul(p.v(), q.v()) == fadd(fmul(x.v(), base.v()), fmul(y.v(), base.v()))),
{
    let pa = bls12_381::G1Affine::from_compressed(&p.b).unwrap();
    let qa = bls12_381::G2Affine::from_compressed(&q.b).unwrap();
    let xa = bls12_381::G1Affine::from_compressed(&x.b).unwrap();
    let ya = bls12_381::G1Affine::from_compressed(&y.b).unwrap();
    let prep = bls12_381::G2Prepared::from(bls12_381::G2Affine::from_compressed(&base.b).unwrap());
    let rhs = bls12_381::multi_miller_loop(&[(&xa, &prep), (&ya, &prep)]).final_exponentiation();
    bls12_381::pairing(&pa, &qa) == rhs
}

/// Appends a byte slice to a transcript buffer.
pub(crate) fn extend_bytes(out: &mut Vec<u8>, src: &[u8])
    ensures
        final(out)@ == old(out)@ + src@,
{
    let mut i: usize = 0;
    while i < src.len()
        invariant
            i <= src@.len(),
            out@ == old(out)@ + src@.subrange(0, i as int),
        decreases src@.len() - i,
    {
        out.push(src[i]);
        proof {
            assert(out@ =~= old(out)@ + src@.subrange(0, i + 1 as int));
        }
        i += 1;
    }
    proof {
        assert(out@ =~= old(out)@ + src@);
    }
}

} // verus!
