//! Schnorr signatures: round trips and tamper detection.

use tatadr::{rnd_scalar, Scalar, G1Elem, Signature, ExtSignature};

#[test]
fn correct() {
    let g1 = G1Elem::generator();

    let s = rnd_scalar();

    let d0 = rnd_scalar().to_bytes().to_vec();
    let d1 = rnd_scalar().to_bytes().to_vec();

    let data = vec![d0, d1];
    let sig = ExtSignature::sign(&s, &g1, &data);

    assert!(sig.verify(&g1, &data) == true);
}

#[test]
fn incorrect() {
    let g1 = G1Elem::generator();

    let s = rnd_scalar();

    let d0 = rnd_scalar().to_bytes().to_vec();
    let d1 = rnd_scalar().to_bytes().to_vec();
    let d2 = rnd_scalar().to_bytes().to_vec();

    let data1 = vec![d0.clone(), d1];
    let sig = ExtSignature::sign(&s, &g1, &data1);

    let data2 = vec![d0, d2];
    assert!(sig.verify(&g1, &data2) == false);
}

#[test]
fn tampering_breaks_verification() {
    let g1 = G1Elem::generator();
    let s = rnd_scalar();
    let pk = g1.mul(&s);

    let mut d0 = rnd_scalar().to_bytes().to_vec();
    let data = vec![d0.clone()];
    let sig = Signature::sign(&s, &g1, &pk, &data);
    assert!(sig.verify(&g1, &pk, &data));

    // A flipped message byte is rejected.
    d0[7] ^= 0x01;
    let flipped = vec![d0];
    assert!(!sig.verify(&g1, &pk, &flipped));

    // A perturbed challenge is rejected.
    let bad_c = Signature { c: sig.c.add(&Scalar::from_u64(1)), p: sig.p };
    assert!(!bad_c.verify(&g1, &pk, &data));

    // A perturbed response is rejected.
    let bad_p = Signature { c: sig.c, p: sig.p.add(&Scalar::from_u64(1)) };
    assert!(!bad_p.verify(&g1, &pk, &data));
}

#[test]
fn nonce_is_deterministic() {
    // Signing the same message twice with the same secret gives the same
    // signature: the nonce is a hash of the secret and the message, an
    // inherited design choice preserved by the scheme.
    let g1 = G1Elem::generator();
    let s = rnd_scalar();
    let data = vec![b"inherited deterministic nonce".to_vec()];
    let one = ExtSignature::sign(&s, &g1, &data);
    let two = ExtSignature::sign(&s, &g1, &data);
    assert!(one.sig.c.to_bytes() == two.sig.c.to_bytes());
    assert!(one.sig.p.to_bytes() == two.sig.p.to_bytes());
}
