//! Share algebra: dealing, interpolation, commitment verification and
//! full-polynomial reconstruction.

use tatadr::{
    rnd_scalar, Scalar, G1Elem, Polynomial, PointPolynomial, Share, ShareVector,
    PointShareVector, Interpolate, Reconstruct, Evaluate, Degree, Error, cut_tail,
};

#[test]
fn interpolation() {
    let g1 = G1Elem::generator();

    let threshold = 3;
    let parties = threshold + 1;

    let s = rnd_scalar();
    let big_s = g1.mul(&s);

    let poly = Polynomial::rnd(s, threshold);

    let shares = poly.shares(parties);
    let s_res = shares.interpolate().unwrap();
    assert!(s.to_bytes() == s_res.to_bytes());

    let s_poly = poly.lift(&g1);
    let s_shares = shares.lift(&g1);

    for s_sh in s_shares.0.iter() {
        assert!(s_poly.verify(s_sh) == true);
    }

    let s_res = s_shares.interpolate().unwrap();
    assert!(big_s.equals(&s_res));
}

#[test]
fn interpolation_degree_bounds() {
    // The smallest and the largest degree named by the share engine's
    // reconstruction property.
    for threshold in [0usize, 32] {
        let s = rnd_scalar();
        let poly = Polynomial::rnd(s, threshold);
        let shares = poly.shares(threshold + 1);
        let s_res = shares.interpolate().unwrap();
        assert!(s.to_bytes() == s_res.to_bytes());
    }
}

#[test]
fn too_few_shares_miss_the_secret() {
    let threshold = 3;
    let s = rnd_scalar();
    let poly = Polynomial::rnd(s, threshold);
    let shares = poly.shares(threshold + 1);
    // Only threshold shares: the interpolation lands elsewhere.
    let partial = ShareVector(shares.0[..threshold].to_vec());
    let wrong = partial.interpolate().unwrap();
    assert!(s.to_bytes() != wrong.to_bytes());
}

#[test]
fn committed_share_tampering_detected() {
    let g1 = G1Elem::generator();
    let threshold = 3;
    let s = rnd_scalar();
    let poly = Polynomial::rnd(s, threshold);
    let shares = poly.shares(threshold + 1);
    let s_poly = poly.lift(&g1);
    let s_shares = shares.lift(&g1);

    // A genuine share passes; a share with an altered point fails; a share
    // with an altered index fails.
    let genuine = s_shares.0[1];
    assert!(s_poly.verify(&genuine));

    let mut bad_point = genuine;
    bad_point.Yi = bad_point.Yi.add(&g1);
    assert!(!s_poly.verify(&bad_point));

    let mut bad_index = genuine;
    bad_index.i = bad_index.i + 1;
    assert!(!s_poly.verify(&bad_index));
}

#[test]
fn reconstruct_recovers_committed_coefficients() {
    let g1 = G1Elem::generator();
    for threshold in [0usize, 2, 10] {
        let s = rnd_scalar();
        let poly = Polynomial::rnd(s, threshold);
        let committed = poly.lift(&g1);
        let point_shares = poly.shares(threshold + 1).lift(&g1);
        let rebuilt = point_shares.reconstruct().unwrap();
        assert!(rebuilt.0.len() == committed.0.len());
        for k in 0..rebuilt.0.len() {
            assert!(rebuilt.0[k].equals(&committed.0[k]));
        }
    }
}

#[test]
fn evaluate_exact_value() {
    // 1 + 2x at x = 3 is 7.
    let poly = Polynomial(vec![Scalar::from_u64(1), Scalar::from_u64(2)]);
    let v = poly.evaluate(Scalar::from_u64(3));
    assert!(v.to_bytes() == Scalar::from_u64(7).to_bytes());
    assert!(poly.degree() == 1);
}

#[test]
fn scalar_arithmetic_exact_values() {
    let two = Scalar::from_u64(2);
    let three = Scalar::from_u64(3);
    assert!(two.add(&three).to_bytes() == Scalar::from_u64(5).to_bytes());
    assert!(three.sub(&two).to_bytes() == Scalar::from_u64(1).to_bytes());
    assert!(two.mul(&three).to_bytes() == Scalar::from_u64(6).to_bytes());
    assert!(two.neg().add(&two).to_bytes() == Scalar::from_u64(0).to_bytes());
    assert!(two.equals(&Scalar::from_u64(2)));
    assert!(!two.equals(&three));
}

#[test]
fn group_arithmetic_matches_scalars() {
    let g1 = G1Elem::generator();
    // G + G == 2 G, and (G·2)·3 == G·6.
    let doubled = g1.add(&g1);
    assert!(doubled.equals(&g1.mul(&Scalar::from_u64(2))));
    let six = g1.mul(&Scalar::from_u64(2)).mul(&Scalar::from_u64(3));
    assert!(six.equals(&g1.mul(&Scalar::from_u64(6))));
    assert!(g1.sub(&g1).equals(&G1Elem::identity()));
}

#[test]
fn share_index_mismatch() {
    let a = Share { i: 1, yi: Scalar::from_u64(10) };
    let b = Share { i: 2, yi: Scalar::from_u64(20) };
    assert!(matches!(a.add(&b), Err(Error::IndexMismatch)));
    assert!(matches!(a.sub(&b), Err(Error::IndexMismatch)));
    let c = Share { i: 1, yi: Scalar::from_u64(20) };
    let sum = a.add(&c).unwrap();
    assert!(sum.yi.to_bytes() == Scalar::from_u64(30).to_bytes());
}

#[test]
fn duplicate_indices_are_degenerate() {
    let a = Share { i: 1, yi: Scalar::from_u64(10) };
    let b = Share { i: 1, yi: Scalar::from_u64(20) };
    let v = ShareVector(vec![a, b]);
    assert!(matches!(v.interpolate(), Err(Error::DegenerateInterpolation)));

    let g1 = G1Elem::generator();
    let pv = PointShareVector(vec![a.lift(&g1), b.lift(&g1)]);
    assert!(matches!(pv.interpolate(), Err(Error::DegenerateInterpolation)));
    assert!(matches!(pv.reconstruct(), Err(Error::DegenerateInterpolation)));
}

#[test]
fn wipe_zeroes_secrets() {
    let mut poly = Polynomial::rnd(rnd_scalar(), 3);
    poly.wipe();
    for c in poly.0.iter() {
        assert!(c.to_bytes() == [0u8; 32]);
    }
    let mut shares = Polynomial::rnd(rnd_scalar(), 2).shares(3);
    shares.wipe();
    for sh in shares.0.iter() {
        assert!(sh.yi.to_bytes() == [0u8; 32]);
    }
}

#[test]
fn cut_tail_trims_trailing_run() {
    let g1 = G1Elem::generator();
    let id = G1Elem::identity();

    // A trailing run of identities goes away; an inner identity stays.
    let mut v = vec![g1, id, g1, id, id];
    cut_tail(&mut v, &id);
    assert!(v.len() == 3);
    assert!(v[0].equals(&g1) && v[1].equals(&id) && v[2].equals(&g1));

    // Without a trailing run nothing changes.
    let mut w = vec![id, g1];
    cut_tail(&mut w, &id);
    assert!(w.len() == 2);

    // A vector of identities empties out.
    let mut z = vec![id, id];
    cut_tail(&mut z, &id);
    assert!(z.len() == 0);
}

#[test]
fn hash_to_scalar_is_deterministic() {
    let a = tatadr::hash_to_scalar(b"committee transcript");
    let b = tatadr::hash_to_scalar(b"committee transcript");
    let c = tatadr::hash_to_scalar(b"committee transcripT");
    assert!(a.to_bytes() == b.to_bytes());
    assert!(a.to_bytes() != c.to_bytes());
}

#[test]
fn vector_operations_are_pointwise() {
    let s = rnd_scalar();
    let poly = Polynomial::rnd(s, 2);
    let shares = poly.shares(3);
    let two = Scalar::from_u64(2);

    let doubled = shares.mul(&two);
    let summed = shares.add(&shares).unwrap();
    for k in 0..3 {
        assert!(doubled.0[k].yi.to_bytes() == summed.0[k].yi.to_bytes());
    }

    let shifted = shares.add_scalar(&two);
    for k in 0..3 {
        let back = shifted.0[k].sub_scalar(&two);
        assert!(back.yi.to_bytes() == shares.0[k].yi.to_bytes());
    }
}
