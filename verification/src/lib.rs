//! Threshold access tokens over the BLS12-381 pairing groups.
//!
//! A committee of `t + 1` parties holds Shamir shares of two master secrets.
//! A client runs a two-round protocol against the committee and assembles,
//! by Lagrange interpolation of the returned point shares, an anonymous
//! credential bound to a per-request secret.  The crate provides the
//! polynomial/share algebra, the Schnorr-style signature scheme with
//! Fiat-Shamir challenges, and the protocol state machine.

use vstd::prelude::*;

pub mod algebra;
pub mod primitives;
pub mod shares;
pub mod signatures;
pub mod tatadr;

pub use primitives::{Scalar, G1Elem, G2Elem, rnd_scalar, hash_to_scalar};
pub use shares::{
    Share, PointShare, Polynomial, PointPolynomial, ShareVector, PointShareVector,
    Interpolate, Reconstruct, Evaluate, Degree, cut_tail,
};
pub use signatures::{Signature, ExtSignature};
pub use tatadr::{Token, Location, Profile, NetworkSetup};

verus! {

/// Every way a protocol step or an algebra operation can fail.  All failures
/// are fatal to the current step; nothing is retried inside the library.
#[derive(Clone, Copy, Debug, PartialEq, Eq, Structural)]
pub enum Error {
    /// Two shares with different evaluation indices were combined.
    IndexMismatch,
    /// A location is unknown, or a commitment pair failed its pairing check.
    InvalidRegistration,
    /// A sequence number was not strictly increasing, or a timestamp fell
    /// outside the acceptance window.
    ReplayRejected,
    /// A Schnorr signature did not verify.
    SignatureInvalid,
    /// A session is unknown or was already consumed.
    SessionNotFound,
    /// Lagrange weights were requested for duplicate evaluation points.
    DegenerateInterpolation,
}

} // verus!
