//! Schnorr-style signatures with Fiat-Shamir challenges.
//!
//! The nonce is derived deterministically as the hash of the secret and the
//! message parts — an inherited design choice of the protocol, preserved
//! exactly.  The challenge hashes the generator, the public key, the
//! commitment and the message parts, in that fixed order; the concatenation
//! order is part of the interoperability contract.

use vstd::prelude::*;
use crate::algebra::{fadd, fsub, fmul, field_r};
use crate::algebra::{lemma_fmul_comm, lemma_fmul_assoc, lemma_fmul_dist_fsub, lemma_fadd_fsub_cancel};
use crate::primitives::{Scalar, G1Elem, hash_of, hash_to_scalar, extend_bytes, g1_bytes_of};

verus! {

/// The byte strings of a list of message parts.
pub open spec fn parts_view(data: Seq<Vec<u8>>) -> Seq<Seq<u8>> {
    data.map(|i: int, d: Vec<u8>| d@)
}

/// The concatenation of a list of byte strings, in order.
pub open spec fn concat_parts(data: Seq<Seq<u8>>) -> Seq<u8>
    decreases data.len(),
{
    if data.len() == 0 {
        Seq::empty()
    } else {
        concat_parts(data.drop_last()) + data.last()
    }
}

/// The deterministic nonce: the hash of the secret's bytes followed by the
/// message parts.
pub open spec fn spec_nonce(sb: Seq<u8>, data: Seq<Seq<u8>>) -> nat {
    hash_of(sb + concat_parts(data))
}

/// The Fiat-Shamir challenge: the hash of the compressed generator, public
/// key and commitment, followed by the message parts.
pub open spec fn spec_challenge(gb: Seq<u8>, pb: Seq<u8>, mb: Seq<u8>, data: Seq<Seq<u8>>) -> nat {
    hash_of(gb + pb + mb + concat_parts(data))
}

/// What `Signature::verify` decides: the challenge `c` must equal the hash
/// recomputed over the commitment `P^c · G^p`.
pub open spec fn schnorr_verifies(c: nat, p: nat, gv: nat, pkv: nat, data: Seq<Seq<u8>>) -> bool {
    c == spec_challenge(
        g1_bytes_of(gv),
        g1_bytes_of(pkv),
        g1_bytes_of(fadd(fmul(pkv, c), fmul(gv, p))),
        data,
    )
}

/// Appends every message part to the transcript buffer.
fn extend_parts(buf: &mut Vec<u8>, data: &[Vec<u8>])
    ensures
        final(buf)@ == old(buf)@ + concat_parts(parts_view(data@)),
{
    let mut k: usize = 0;
    while k < data.len()
        invariant
            k <= data@.len(),
            buf@ == old(buf)@ + concat_parts(parts_view(data@).take(k as int)),
        decreases data@.len() - k,
    {
        extend_bytes(buf, data[k].as_slice());
        proof {
            let parts = parts_view(data@);
            assert(parts.take(k + 1).drop_last() =~= parts.take(k as int));
            assert(parts.take(k + 1).last() == data@[k as int]@);
            assert(buf@ =~= old(buf)@ + concat_parts(parts.take(k + 1)));
        }
        k += 1;
    }
    proof {
        assert(parts_view(data@).take(data@.len() as int) =~= parts_view(data@));
    }
}

/// The Fiat-Shamir challenge scalar over `(G, P, M, message parts)`.
fn hash_c(g: &G1Elem, pk: &G1Elem, m: &G1Elem, data: &[Vec<u8>]) -> (r: Scalar)
    ensures
        r.v() == spec_challenge(
            g1_bytes_of(g.v()),
            g1_bytes_of(pk.v()),
            g1_bytes_of(m.v()),
            parts_view(data@),
        ),
{
    let mut buf: Vec<u8> = Vec::new();
    let gb = g.compressed();
    extend_bytes(&mut buf, gb.as_slice());
    let pb = pk.compressed();
    extend_bytes(&mut buf, pb.as_slice());
    let mb = m.compressed();
    extend_bytes(&mut buf, mb.as_slice());
    extend_parts(&mut buf, data);
    proof {
        assert(buf@ =~= g1_bytes_of(g.v()) + g1_bytes_of(pk.v()) + g1_bytes_of(m.v())
            + concat_parts(parts_view(data@)));
    }
    hash_to_scalar(buf.as_slice())
}

/// A Schnorr proof: challenge `c` and response `p`.
#[derive(Clone, Copy, Debug)]
pub struct Signature {
    pub c: Scalar,
    pub p: Scalar,
}

impl Signature {
    /// Signs the message parts with secret `s` under generator `G` and
    /// public key `P`: nonce `m = Hash(s ∥ parts)`, commitment `M = G^m`,
    /// challenge `c = Hash(G, P, M, parts)`, response `p = m − c·s`.
    pub fn sign(s: &Scalar, g: &G1Elem, pk: &G1Elem, data: &[Vec<u8>]) -> (r: Signature)
        ensures
            r.c.v() == spec_challenge(
                g1_bytes_of(g.v()),
                g1_bytes_of(pk.v()),
                g1_bytes_of(fmul(g.v(), spec_nonce(s.bytes(), parts_view(data@)))),
                parts_view(data@),
            ),
            r.p.v() == fsub(
                spec_nonce(s.bytes(), parts_view(data@)),
                fmul(r.c.v(), s.v()),
            ),
    {
        let mut buf: Vec<u8> = Vec::new();
        let sb = s.to_bytes();
        extend_bytes(&mut buf, sb.as_slice());
        extend_parts(&mut buf, data);
        proof {
            assert(buf@ =~= s.bytes() + concat_parts(parts_view(data@)));
        }
        let mut m = hash_to_scalar(buf.as_slice());
        let commitment = g.mul(&m);
        let c = hash_c(g, pk, &commitment, data);
        let p = m.sub(&c.mul(s));
        m.wipe();
        Signature { c, p }
    }

    /// Recomputes the commitment as `P^c · G^p` and accepts exactly when the
    /// recomputed challenge matches `c`.
    pub fn verify(&self, g: &G1Elem, pk: &G1Elem, data: &[Vec<u8>]) -> (r: bool)
        ensures
            r == schnorr_verifies(self.c.v(), self.p.v(), g.v(), pk.v(), parts_view(data@)),
    {
        let commitment = pk.mul(&self.c).add(&g.mul(&self.p));
        let c2 = hash_c(g, pk, &commitment, data);
        c2.equals(&self.c)
    }
}

/// A Schnorr proof bundled with its public key, so verification needs no
/// externally supplied key.
#[derive(Clone, Copy, Debug)]
pub struct ExtSignature {
    pub P1: G1Elem,
    pub sig: Signature,
}

impl ExtSignature {
    /// Signs with secret `s` under generator `G`, embedding the public key
    /// `P = G^s` in the result.
    pub fn sign(s: &Scalar, g: &G1Elem, data: &[Vec<u8>]) -> (r: ExtSignature)
        ensures
            r.P1.v() == fmul(g.v(), s.v()),
            r.sig.c.v() == spec_challenge(
                g1_bytes_of(g.v()),
                g1_bytes_of(fmul(g.v(), s.v())),
                g1_bytes_of(fmul(g.v(), spec_nonce(s.bytes(), parts_view(data@)))),
                parts_view(data@),
            ),
            r.sig.p.v() == fsub(
                spec_nonce(s.bytes(), parts_view(data@)),
                fmul(r.sig.c.v(), s.v()),
            ),
    {
        let pk = g.mul(s);
        let sig = Signature::sign(s, g, &pk, data);
        ExtSignature { P1: pk, sig }
    }

    /// Verifies against the embedded public key.
    pub fn verify(&self, g: &G1Elem, data: &[Vec<u8>]) -> (r: bool)
        ensures
            r == schnorr_verifies(
                self.sig.c.v(),
                self.sig.p.v(),
                g.v(),
                self.P1.v(),
                parts_view(data@),
            ),
    {
        self.sig.verify(g, &self.P1, data)
    }
}

/// Signature round trip: a signature produced by `sign` with secret `s`,
/// generator `G` and public key `G^s` passes `verify` on the same generator,
/// key and message parts, whatever the secret, the generator and the parts.
pub proof fn lemma_sign_verify_roundtrip(gv: nat, sv: nat, sb: Seq<u8>, data: Seq<Seq<u8>>)
    ensures
        schnorr_verifies(
            spec_challenge(
                g1_bytes_of(gv),
                g1_bytes_of(fmul(gv, sv)),
                g1_bytes_of(fmul(gv, spec_nonce(sb, data))),
                data,
            ),
            fsub(
                spec_nonce(sb, data),
                fmul(
                    spec_challenge(
                        g1_bytes_of(gv),
                        g1_bytes_of(fmul(gv, sv)),
                        g1_bytes_of(fmul(gv, spec_nonce(sb, data))),
                        data,
                    ),
                    sv,
                ),
            ),
            gv,
            fmul(gv, sv),
            data,
        ),
{
    let m = spec_nonce(sb, data);
    let c = spec_challenge(
        g1_bytes_of(gv),
        g1_bytes_of(fmul(gv, sv)),
        g1_bytes_of(fmul(gv, m)),
        data,
    );
    let p = fsub(m, fmul(c, sv));
    // The recomputed commitment equals the original one:
    //   (G^s)^c · G^(m − c·s) = G^m.
    lemma_fmul_dist_fsub(gv, m, fmul(c, sv));
    // fmul(gv, fmul(c, sv)) == fmul(fmul(gv, sv), c)
    lemma_fmul_assoc(gv, c, sv);
    lemma_fmul_comm(c, sv);
    lemma_fmul_assoc(gv, sv, c);
    lemma_fmul_comm(sv, c);
    assert(fmul(gv, fmul(c, sv)) == fmul(fmul(gv, sv), c));
    lemma_fadd_fsub_cancel(fmul(fmul(gv, sv), c), fmul(gv, m));
    assert(fadd(fmul(fmul(gv, sv), c), fmul(gv, p)) == fmul(gv, m));
}

} // verus!
