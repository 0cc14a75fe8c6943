//! The protocol end to end: setup, registration, session lifecycle, token
//! assembly and verification, and the replay and one-shot rules.

use tatadr::{
    rnd_scalar, hash_to_scalar, G1Elem, ExtSignature, Interpolate, NetworkSetup, Token,
    Error,
};

/// Signs the `start` transcript `(profile name, seq, time)` with the client
/// secret, as a client would.
fn client_start_sig(setup: &NetworkSetup, st: &tatadr::Scalar, profile: &str, seq: u64, time: u64) -> ExtSignature {
    let data = vec![
        profile.as_bytes().to_vec(),
        seq.to_le_bytes().to_vec(),
        time.to_le_bytes().to_vec(),
    ];
    ExtSignature::sign(st, &setup.G1, &data)
}

/// Runs one full protocol round and verifies the resulting token.
fn run_round(threshold: usize) {
    let l = rnd_scalar();
    let r = rnd_scalar();
    let st = rnd_scalar();

    let mut setup = NetworkSetup::new(threshold);
    setup.location("Hospital", setup.Y.mul(&l));
    setup
        .profile("EHR", "Hospital", setup.G1.mul(&r), setup.A1.mul(&r))
        .unwrap();

    let seq = 2u64;
    let time = 1_000u64;
    let now = 1_000u64;
    let k = rnd_scalar();

    let sig = client_start_sig(&setup, &st, "EHR", seq, time);
    let (mi, pii) = setup.start(sig, "EHR", seq, time, now).unwrap();

    let m = mi.interpolate().unwrap();
    let mk = m.mul(&k);
    let pi = pii.interpolate().unwrap();

    let mut transcript = Vec::new();
    transcript.extend_from_slice(&m.compressed());
    transcript.extend_from_slice(&mk.compressed());
    transcript.extend_from_slice(&pi.compressed());
    let c = hash_to_scalar(&transcript);

    let kc = setup.G1.mul(&k.mul(&c));
    let akc = setup.A1.mul(&k.mul(&c));

    let tki = setup.request(seq, time, &akc, &kc).unwrap();
    let tk = tki.interpolate().unwrap();

    let token = Token::new(k, tk, m, pi);
    assert!(token.verify(&setup));
}

#[test]
fn end_to_end_threshold_0() {
    run_round(0);
}

#[test]
fn end_to_end_threshold_1() {
    run_round(1);
}

#[test]
fn end_to_end_threshold_4() {
    run_round(4);
}

#[test]
fn end_to_end_threshold_16() {
    run_round(16);
}

#[test]
fn replay_is_rejected() {
    let l = rnd_scalar();
    let r = rnd_scalar();
    let st = rnd_scalar();

    let mut setup = NetworkSetup::new(1);
    setup.location("Hospital", setup.Y.mul(&l));
    setup
        .profile("EHR", "Hospital", setup.G1.mul(&r), setup.A1.mul(&r))
        .unwrap();

    let now = 1_000u64;

    // A first start succeeds.
    let sig = client_start_sig(&setup, &st, "EHR", 5, now);
    assert!(setup.start(sig, "EHR", 5, now, now).is_ok());

    // A second start with the same sequence number fails.
    let sig = client_start_sig(&setup, &st, "EHR", 5, now);
    assert!(matches!(setup.start(sig, "EHR", 5, now, now), Err(Error::ReplayRejected)));

    // A sequence number below the last accepted one fails too.
    let sig = client_start_sig(&setup, &st, "EHR", 4, now);
    assert!(matches!(setup.start(sig, "EHR", 4, now, now), Err(Error::ReplayRejected)));

    // A timestamp outside the thirty-second window fails, on either side.
    let sig = client_start_sig(&setup, &st, "EHR", 6, now + 31);
    assert!(matches!(setup.start(sig, "EHR", 6, now + 31, now), Err(Error::ReplayRejected)));
    let sig = client_start_sig(&setup, &st, "EHR", 6, now - 31);
    assert!(matches!(setup.start(sig, "EHR", 6, now - 31, now), Err(Error::ReplayRejected)));

    // On the window's edge the call passes.
    let sig = client_start_sig(&setup, &st, "EHR", 6, now + 30);
    assert!(setup.start(sig, "EHR", 6, now + 30, now).is_ok());
}

#[test]
fn bad_start_signature_is_rejected() {
    let l = rnd_scalar();
    let r = rnd_scalar();
    let st = rnd_scalar();

    let mut setup = NetworkSetup::new(1);
    setup.location("Hospital", setup.Y.mul(&l));
    setup
        .profile("EHR", "Hospital", setup.G1.mul(&r), setup.A1.mul(&r))
        .unwrap();

    // Signed for another sequence number: the transcript does not match.
    let sig = client_start_sig(&setup, &st, "EHR", 7, 1_000);
    assert!(matches!(
        setup.start(sig, "EHR", 2, 1_000, 1_000),
        Err(Error::SignatureInvalid)
    ));
}

#[test]
fn unknown_profile_is_rejected() {
    let st = rnd_scalar();
    let mut setup = NetworkSetup::new(1);
    let sig = client_start_sig(&setup, &st, "EHR", 2, 1_000);
    assert!(matches!(
        setup.start(sig, "EHR", 2, 1_000, 1_000),
        Err(Error::InvalidRegistration)
    ));
}

#[test]
fn sessions_are_one_shot() {
    let l = rnd_scalar();
    let r = rnd_scalar();
    let st = rnd_scalar();
    let k = rnd_scalar();

    let mut setup = NetworkSetup::new(2);
    setup.location("Hospital", setup.Y.mul(&l));
    setup
        .profile("EHR", "Hospital", setup.G1.mul(&r), setup.A1.mul(&r))
        .unwrap();

    let seq = 2u64;
    let time = 1_000u64;
    let sig = client_start_sig(&setup, &st, "EHR", seq, time);
    let (mi, pii) = setup.start(sig, "EHR", seq, time, time).unwrap();

    let m = mi.interpolate().unwrap();
    let mk = m.mul(&k);
    let pi = pii.interpolate().unwrap();
    let mut transcript = Vec::new();
    transcript.extend_from_slice(&m.compressed());
    transcript.extend_from_slice(&mk.compressed());
    transcript.extend_from_slice(&pi.compressed());
    let c = hash_to_scalar(&transcript);
    let kc = setup.G1.mul(&k.mul(&c));
    let akc = setup.A1.mul(&k.mul(&c));

    // The first request consumes the session; the second finds nothing.
    assert!(setup.request(seq, time, &akc, &kc).is_ok());
    assert!(matches!(
        setup.request(seq, time, &akc, &kc),
        Err(Error::SessionNotFound)
    ));

    // An unknown session identifier fails the same way.
    assert!(matches!(
        setup.request(99, time, &akc, &kc),
        Err(Error::SessionNotFound)
    ));
}

#[test]
fn request_checks_commitment_pair() {
    let l = rnd_scalar();
    let r = rnd_scalar();
    let st = rnd_scalar();
    let k = rnd_scalar();

    let mut setup = NetworkSetup::new(1);
    setup.location("Hospital", setup.Y.mul(&l));
    setup
        .profile("EHR", "Hospital", setup.G1.mul(&r), setup.A1.mul(&r))
        .unwrap();

    let seq = 2u64;
    let time = 1_000u64;
    let sig = client_start_sig(&setup, &st, "EHR", seq, time);
    setup.start(sig, "EHR", seq, time, time).unwrap();

    // (Akc, Kc) with mismatched exponents fails the pairing check.
    let kc = setup.G1.mul(&k);
    let akc = setup.A1.mul(&k.add(&tatadr::Scalar::from_u64(1)));
    assert!(matches!(
        setup.request(seq, time, &akc, &kc),
        Err(Error::InvalidRegistration)
    ));
}

#[test]
fn profile_registration_is_validated() {
    let r = rnd_scalar();
    let l = rnd_scalar();
    let mut setup = NetworkSetup::new(1);

    // A profile under an unregistered location fails.
    assert!(matches!(
        setup.profile("EHR", "Hospital", setup.G1.mul(&r), setup.A1.mul(&r)),
        Err(Error::InvalidRegistration)
    ));

    setup.location("Hospital", setup.Y.mul(&l));

    // A commitment pair with different hidden exponents fails.
    let r2 = rnd_scalar();
    assert!(matches!(
        setup.profile("EHR", "Hospital", setup.G1.mul(&r), setup.A1.mul(&r2)),
        Err(Error::InvalidRegistration)
    ));

    // A consistent pair registers.
    assert!(setup.profile("EHR", "Hospital", setup.G1.mul(&r), setup.A1.mul(&r)).is_ok());
}
