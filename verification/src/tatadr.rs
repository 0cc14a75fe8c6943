//! The protocol state machine: committee setup, registries, sessions and
//! tokens.
//!
//! A committee of `threshold + 1` members is simulated in one value of
//! [`NetworkSetup`].  It holds Shamir shares of two master secrets: the
//! identity secret behind the commitment `Y`, and the authorization secret
//! behind `A1` (source group) and `A2` (pairing-side group).  A client
//! registers a location and a profile, opens a session with `start`,
//! retrieves token shares with `request`, and assembles and verifies a
//! [`Token`].  Sessions are one-shot: `start` creates one, `request`
//! consumes it.

use vstd::prelude::*;
use vstd::string::StringSliceAdditionalSpecFns;
use crate::Error;
use crate::algebra::{fadd, fmul, fsub, field_r, poly_eval};
use crate::primitives::{Scalar, G1Elem, G2Elem, rnd_scalar, hash_to_scalar, hash_of, g1_bytes_of, extend_bytes, pairing_eq, multi_pairing_check};
use crate::shares::{Share, ShareVector, PointShareVector, Polynomial, share_vals};
use crate::signatures::{ExtSignature, schnorr_verifies, spec_nonce, parts_view};

verus! {

/// A registered location: the delegated commitment `Yl = Y^l`, where the
/// exponent `l` stays private to the location.
#[derive(Clone, Copy, Debug)]
pub struct Location {
    pub Yl: G1Elem,
}

/// A registered profile: bound to a location, carrying the commitment pair
/// `(R, Ar)` whose pairing consistency was checked at registration.
#[derive(Debug)]
pub struct Profile {
    pub loc: String,
    pub R: G1Elem,
    pub Ar: G1Elem,
}

impl Profile {
    /// An exact copy of the profile.
    pub fn duplicate(&self) -> (r: Profile)
        ensures
            r == *self,
    {
        Profile { loc: self.loc.clone(), R: self.R, Ar: self.Ar }
    }
}

/// An in-flight session: the per-session share vector and a copy of the
/// profile it was opened for.  Sessions are created by `start`, consumed by
/// `request`, and only ever built by this module.
pub struct Session {
    pub(crate) mi: ShareVector,
    pub(crate) profile: Profile,
}

/// The simulated committee: generators, master commitments, the committee's
/// share vectors for both master secrets, the location and profile
/// registries, the in-flight sessions and the anti-replay counter.
pub struct NetworkSetup {
    pub threshold: usize,
    pub G1: G1Elem,
    pub G2A: G2Elem,
    pub Y: G1Elem,
    pub A1: G1Elem,
    pub A2: G2Elem,
    pub yi: ShareVector,
    pub ai: ShareVector,
    pub last: u64,
    pub sessions: Vec<((u64, u64), Session)>,
    pub profiles: Vec<(String, Profile)>,
    pub locations: Vec<(String, Location)>,
}

spec fn assoc_loc(list: Seq<(String, Location)>, name: Seq<char>) -> Option<Location>
    decreases list.len(),
{
    if list.len() == 0 {
        None
    } else if list[0].0@ == name {
        Some(list[0].1)
    } else {
        assoc_loc(list.drop_first(), name)
    }
}

spec fn assoc_prof(list: Seq<(String, Profile)>, name: Seq<char>) -> Option<Profile>
    decreases list.len(),
{
    if list.len() == 0 {
        None
    } else if list[0].0@ == name {
        Some(list[0].1)
    } else {
        assoc_prof(list.drop_first(), name)
    }
}

spec fn assoc_sess(list: Seq<((u64, u64), Session)>, key: (u64, u64)) -> Option<Session>
    decreases list.len(),
{
    if list.len() == 0 {
        None
    } else if list[0].0 == key {
        Some(list[0].1)
    } else {
        assoc_sess(list.drop_first(), key)
    }
}

/// A key that matches no entry is not found.
proof fn lemma_assoc_sess_absent(list: Seq<((u64, u64), Session)>, key: (u64, u64))
    requires
        forall|m: int| 0 <= m < list.len() ==> (#[trigger] list[m]).0 != key,
    ensures
        assoc_sess(list, key) is None,
    decreases list.len(),
{
    if list.len() > 0 {
        lemma_assoc_sess_absent(list.drop_first(), key);
    }
}

/// Skipping entries that do not match the key leaves the lookup unchanged.
proof fn lemma_assoc_sess_skip(list: Seq<((u64, u64), Session)>, key: (u64, u64), p: int)
    requires
        0 <= p <= list.len(),
        forall|m: int| 0 <= m < p ==> (#[trigger] list[m]).0 != key,
    ensures
        assoc_sess(list, key) == assoc_sess(list.skip(p), key),
    decreases p,
{
    if p == 0 {
        assert(list.skip(0) =~= list);
    } else {
        assert(list.drop_first().skip(p - 1) =~= list.skip(p));
        lemma_assoc_sess_skip(list.drop_first(), key, p - 1);
    }
}

/// Removing the unique entry under `key` makes the key unknown and leaves
/// every other key's lookup unchanged.
proof fn lemma_assoc_sess_remove(list: Seq<((u64, u64), Session)>, pos: int, key: (u64, u64))
    requires
        0 <= pos < list.len(),
        list[pos].0 == key,
        forall|m: int| 0 <= m < list.len() && m != pos ==> (#[trigger] list[m]).0 != key,
    ensures
        assoc_sess(list.remove(pos), key) is None,
        forall|k2: (u64, u64)| k2 != key
            ==> assoc_sess(list.remove(pos), k2) == assoc_sess(list, k2),
    decreases list.len(),
{
    let removed = list.remove(pos);
    if pos == 0 {
        assert(removed =~= list.drop_first());
        lemma_assoc_sess_absent(removed, key);
        assert forall|k2: (u64, u64)| k2 != key
            implies assoc_sess(removed, k2) == assoc_sess(list, k2) by {
            assert(assoc_sess(list, k2) == assoc_sess(list.drop_first(), k2));
        }
    } else {
        assert(removed.drop_first() =~= list.drop_first().remove(pos - 1));
        lemma_assoc_sess_remove(list.drop_first(), pos - 1, key);
        assert(removed[0] == list[0]);
        assert(list[0].0 != key);
        assert(assoc_sess(removed, key) == assoc_sess(removed.drop_first(), key));
        assert forall|k2: (u64, u64)| k2 != key
            implies assoc_sess(removed, k2) == assoc_sess(list, k2) by {
            if list[0].0 == k2 {
                assert(assoc_sess(removed, k2) == Some(removed[0].1));
                assert(assoc_sess(list, k2) == Some(list[0].1));
            } else {
                assert(assoc_sess(removed, k2) == assoc_sess(removed.drop_first(), k2));
                assert(assoc_sess(list, k2) == assoc_sess(list.drop_first(), k2));
            }
        }
    }
}

/// Inserting a fresh key at the front leaves every other key's lookup
/// unchanged.
proof fn lemma_assoc_sess_insert_front(
    list: Seq<((u64, u64), Session)>,
    x: ((u64, u64), Session),
    k2: (u64, u64),
)
    requires
        x.0 != k2,
    ensures
        assoc_sess(list.insert(0, x), k2) == assoc_sess(list, k2),
{
    assert(list.insert(0, x).drop_first() =~= list);
}

/// A stored session is well shaped for a committee of `t + 1` members.
spec fn session_ok(s: Session, t: int) -> bool {
    s.mi.0@.len() == t + 1 && forall|j: int| 0 <= j < s.mi.0@.len()
        ==> (#[trigger] s.mi.0@[j]).i == j + 1
}

impl NetworkSetup {
    /// The registered location under `name`, if any.
    pub closed spec fn loc_of(self, name: Seq<char>) -> Option<Location> {
        assoc_loc(self.locations@, name)
    }

    /// The registered profile under `name`, if any.
    pub closed spec fn prof_of(self, name: Seq<char>) -> Option<Profile> {
        assoc_prof(self.profiles@, name)
    }

    /// The in-flight session keyed by `(seq, time)`: its per-session share
    /// values and the profile it was opened for.
    pub closed spec fn session_at(self, seq: u64, time: u64) -> Option<(Seq<nat>, Profile)> {
        match assoc_sess(self.sessions@, (seq, time)) {
            None => None,
            Some(sess) => Some((share_vals(sess.mi.0@), sess.profile)),
        }
    }

    /// The last accepted sequence number.
    pub closed spec fn last_seq(self) -> u64 {
        self.last
    }

    /// Well-formedness: the generators are the standard ones, `A1` and `A2`
    /// commit to the same exponent, the committee share vectors carry
    /// indices `1..=threshold + 1`, and every stored session is well shaped
    /// with a key at or below the replay counter, all keys distinct.
    pub closed spec fn wf(self) -> bool {
        &&& self.threshold + 1 <= u32::MAX
        &&& self.G1.v() == 1
        &&& self.G2A.v() == 1
        &&& self.A1.v() == self.A2.v()
        &&& self.yi.0@.len() == self.threshold + 1
        &&& self.ai.0@.len() == self.threshold + 1
        &&& forall|j: int| 0 <= j < self.yi.0@.len() ==> (#[trigger] self.yi.0@[j]).i == j + 1
        &&& forall|j: int| 0 <= j < self.ai.0@.len() ==> (#[trigger] self.ai.0@[j]).i == j + 1
        &&& forall|k: int| 0 <= k < self.sessions@.len()
            ==> session_ok((#[trigger] self.sessions@[k]).1, self.threshold as int)
        &&& forall|k: int| 0 <= k < self.sessions@.len()
            ==> (#[trigger] self.sessions@[k]).0.0 <= self.last
        &&& forall|k1: int, k2: int| 0 <= k1 < k2 < self.sessions@.len()
            ==> (#[trigger] self.sessions@[k1]).0 != (#[trigger] self.sessions@[k2]).0
    }

    /// The state outside the registries, sessions and replay counter.
    pub open spec fn same_committee(self, other: NetworkSetup) -> bool {
        &&& self.threshold == other.threshold
        &&& self.G1 == other.G1
        &&& self.G2A == other.G2A
        &&& self.Y == other.Y
        &&& self.A1 == other.A1
        &&& self.A2 == other.A2
        &&& self.yi == other.yi
        &&& self.ai == other.ai
    }

    /// Sets up a committee of `threshold + 1` members: two fresh master
    /// secrets are drawn, committed to as `Y = G1^y`, `A1 = G1^a` and
    /// `A2 = G2^a`, split with fresh degree-`threshold` polynomials into the
    /// share vectors `yi` and `ai`, and the polynomials and the local
    /// secret scalars are wiped.  The committee state is mutually
    /// consistent: each share vector holds `threshold + 1` shares at
    /// indices `1..=threshold + 1` whose values evaluate a reduced
    /// coefficient sequence whose constant term is the exponent behind the
    /// matching commitment — exactly the hypotheses of the crate's Shamir
    /// reconstruction law.
    pub fn new(threshold: usize) -> (r: NetworkSetup)
        requires
            threshold + 1 <= u32::MAX,
        ensures
            r.wf(),
            r.threshold == threshold,
            r.last_seq() == 0,
            forall|n: Seq<char>| r.loc_of(n) is None,
            forall|n: Seq<char>| r.prof_of(n) is None,
            forall|s: u64, t: u64| r.session_at(s, t) is None,
            r.G1.v() == 1 && r.G2A.v() == 1 && r.A1.v() == r.A2.v(),
            r.yi.0@.len() == threshold + 1,
            r.ai.0@.len() == threshold + 1,
            forall|j: int| 0 <= j < r.yi.0@.len() ==> (#[trigger] r.yi.0@[j]).i == j + 1,
            forall|j: int| 0 <= j < r.ai.0@.len() ==> (#[trigger] r.ai.0@[j]).i == j + 1,
            exists|yco: Seq<nat>|
                yco.len() == threshold + 1 && r.Y.v() == yco[0]
                && (forall|j: int| 0 <= j < yco.len() ==> #[trigger] yco[j] < field_r())
                && (forall|j: int| 0 <= j < threshold + 1
                    ==> share_vals(r.yi.0@)[j] == poly_eval(yco, (j + 1) as nat)),
            exists|aco: Seq<nat>|
                aco.len() == threshold + 1 && r.A1.v() == aco[0]
                && (forall|j: int| 0 <= j < aco.len() ==> #[trigger] aco[j] < field_r())
                && (forall|j: int| 0 <= j < threshold + 1
                    ==> share_vals(r.ai.0@)[j] == poly_eval(aco, (j + 1) as nat)),
    {
        let g1 = G1Elem::generator();
        let g2 = G2Elem::generator();
        let mut y = rnd_scalar();
        let mut a = rnd_scalar();
        let ghost yv = y.v();
        let ghost av = a.v();
        let big_y = g1.mul(&y);
        let a1 = g1.mul(&a);
        let a2 = g2.mul(&a);
        let mut y_poly = Polynomial::rnd(y, threshold);
        let mut a_poly = Polynomial::rnd(a, threshold);
        let ghost yco = crate::shares::scalar_vals(y_poly.0@);
        let ghost aco = crate::shares::scalar_vals(a_poly.0@);
        let yi = y_poly.shares(threshold + 1);
        let ai = a_poly.shares(threshold + 1);
        y_poly.wipe();
        a_poly.wipe();
        y.wipe();
        a.wipe();
        let result = NetworkSetup {
            threshold,
            G1: g1,
            G2A: g2,
            Y: big_y,
            A1: a1,
            A2: a2,
            yi,
            ai,
            last: 0,
            sessions: Vec::new(),
            profiles: Vec::new(),
            locations: Vec::new(),
        };
        proof {
            vstd::arithmetic::div_mod::lemma_small_mod(yv, field_r());
            vstd::arithmetic::div_mod::lemma_small_mod(av, field_r());
            assert(1 * yv == yv);
            assert(1 * av == av);
            assert(yco[0] == yv);
            assert(aco[0] == av);
            assert(yco.len() == threshold + 1 && result.Y.v() == yco[0]
                && (forall|j: int| 0 <= j < yco.len() ==> #[trigger] yco[j] < field_r())
                && (forall|j: int| 0 <= j < threshold + 1
                    ==> share_vals(result.yi.0@)[j] == poly_eval(yco, (j + 1) as nat))) by {
                assert(forall|j: int| 0 <= j < threshold + 1
                    ==> share_vals(result.yi.0@)[j] == (#[trigger] result.yi.0@[j]).yi.v());
            }
            assert(aco.len() == threshold + 1 && result.A1.v() == aco[0]
                && (forall|j: int| 0 <= j < aco.len() ==> #[trigger] aco[j] < field_r())
                && (forall|j: int| 0 <= j < threshold + 1
                    ==> share_vals(result.ai.0@)[j] == poly_eval(aco, (j + 1) as nat))) by {
                assert(forall|j: int| 0 <= j < threshold + 1
                    ==> share_vals(result.ai.0@)[j] == (#[trigger] result.ai.0@[j]).yi.v());
            }
        }
        result
    }

    /// Registers (or replaces) the location `name` with its delegated
    /// commitment `Yl`.  Nothing else changes.
    pub fn location(&mut self, name: &str, Yl: G1Elem)
        requires
            old(self).wf(),
        ensures
            final(self).wf(),
            final(self).loc_of(name@) matches Some(l) && l.Yl == Yl,
            forall|n: Seq<char>| n != name@
                ==> final(self).loc_of(n) == old(self).loc_of(n),
            forall|n: Seq<char>| final(self).prof_of(n) == old(self).prof_of(n),
            forall|s: u64, t: u64| final(self).session_at(s, t) == old(self).session_at(s, t),
            final(self).last_seq() == old(self).last_seq(),
            final(self).same_committee(*old(self)),
    {
        let entry = (name.to_owned(), Location { Yl });
        self.locations.insert(0, entry);
        proof {
            assert(self.locations@[0].0@ == name@);
            assert(self.locations@.drop_first() =~= old(self).locations@);
            assert forall|n: Seq<char>| n != name@
                implies self.loc_of(n) == old(self).loc_of(n) by {
                assert(assoc_loc(self.locations@, n)
                    == assoc_loc(self.locations@.drop_first(), n));
            }
        }
    }

    /// Registers the profile `name` under the location `loc` with the
    /// commitment pair `(R, Ar)`.  Fails with `InvalidRegistration` when the
    /// location is unknown, or when the pairing consistency check
    /// `e(Ar, G2) == e(R, A2)` fails — which proves that `R` and `Ar` hide
    /// the same exponent.  On failure nothing changes.
    pub fn profile(&mut self, name: &str, loc: &str, R: G1Elem, Ar: G1Elem) -> (r: Result<(), Error>)
        requires
            old(self).wf(),
        ensures
            final(self).wf(),
            final(self).same_committee(*old(self)),
            final(self).last_seq() == old(self).last_seq(),
            forall|n: Seq<char>| final(self).loc_of(n) == old(self).loc_of(n),
            forall|s: u64, t: u64| final(self).session_at(s, t) == old(self).session_at(s, t),
            match r {
                Ok(()) => old(self).loc_of(loc@) is Some
                    && fmul(Ar.v(), old(self).G2A.v()) == fmul(R.v(), old(self).A2.v())
                    && (final(self).prof_of(name@) matches Some(p)
                        && p.loc@ == loc@ && p.R == R && p.Ar == Ar)
                    && (forall|n: Seq<char>| n != name@
                        ==> final(self).prof_of(n) == old(self).prof_of(n)),
                Err(e) => e == Error::InvalidRegistration
                    && (old(self).loc_of(loc@) is None
                        || fmul(Ar.v(), old(self).G2A.v()) != fmul(R.v(), old(self).A2.v()))
                    && *final(self) == *old(self),
            },
    {
        let loc_name = loc.to_owned();
        if find_loc(&self.locations, &loc_name).is_none() {
            return Err(Error::InvalidRegistration);
        }
        if !pairing_eq(&Ar, &self.G2A, &R, &self.A2) {
            return Err(Error::InvalidRegistration);
        }
        let entry = (name.to_owned(), Profile { loc: loc_name, R, Ar });
        self.profiles.insert(0, entry);
        proof {
            assert(self.profiles@[0].0@ == name@);
            assert(self.profiles@.drop_first() =~= old(self).profiles@);
            assert forall|n: Seq<char>| n != name@
                implies self.prof_of(n) == old(self).prof_of(n) by {
                assert(assoc_prof(self.profiles@, n)
                    == assoc_prof(self.profiles@.drop_first(), n));
            }
        }
        Ok(())
    }
}

/// Looks a location up by name; the first (most recent) entry wins.
fn find_loc(list: &Vec<(String, Location)>, name: &String) -> (r: Option<Location>)
    ensures
        r == assoc_loc(list@, name@),
{
    let mut k: usize = 0;
    proof {
        assert(list@.skip(0) =~= list@);
    }
    while k < list.len()
        invariant
            k <= list@.len(),
            assoc_loc(list@, name@) == assoc_loc(list@.skip(k as int), name@),
        decreases list@.len() - k,
    {
        proof {
            assert(list@.skip(k as int)[0] == list@[k as int]);
            assert(list@.skip(k as int).drop_first() =~= list@.skip(k + 1));
        }
        if list[k].0 == *name {
            return Some(list[k].1);
        }
        k += 1;
    }
    proof {
        assert(list@.skip(k as int).len() == 0);
    }
    None
}

/// Looks a profile up by name; the first (most recent) entry wins.
fn find_prof(list: &Vec<(String, Profile)>, name: &String) -> (r: Option<Profile>)
    ensures
        match r {
            Some(p) => assoc_prof(list@, name@) == Some(p),
            None => assoc_prof(list@, name@) is None,
        },
{
    let mut k: usize = 0;
    proof {
        assert(list@.skip(0) =~= list@);
    }
    while k < list.len()
        invariant
            k <= list@.len(),
            assoc_prof(list@, name@) == assoc_prof(list@.skip(k as int), name@),
        decreases list@.len() - k,
    {
        proof {
            assert(list@.skip(k as int)[0] == list@[k as int]);
            assert(list@.skip(k as int).drop_first() =~= list@.skip(k + 1));
        }
        if list[k].0 == *name {
            return Some(list[k].1.duplicate());
        }
        k += 1;
    }
    proof {
        assert(list@.skip(k as int).len() == 0);
    }
    None
}

/// The message parts of the `start` transcript: the profile name, then the
/// little-endian sequence number, then the little-endian timestamp.
pub open spec fn start_parts(pname: Seq<u8>, seq: u64, time: u64) -> Seq<Seq<u8>> {
    seq![
        pname,
        vstd::bytes::spec_u64_to_le_bytes(seq),
        vstd::bytes::spec_u64_to_le_bytes(time),
    ]
}

/// Whether the client signature handed to `start` verifies over the
/// transcript `(profile name, seq, time)` under the committee's generator.
pub open spec fn start_sig_ok(
    s: NetworkSetup,
    sig: ExtSignature,
    pname: Seq<u8>,
    seq: u64,
    time: u64,
) -> bool {
    schnorr_verifies(sig.sig.c.v(), sig.sig.p.v(), s.G1.v(), sig.P1.v(), start_parts(pname, seq, time))
}

/// Whether a timestamp lies in the replay acceptance window of thirty
/// seconds around `now`.
pub open spec fn window_ok(time: u64, now: u64) -> bool {
    now - 30 <= time <= now + 30
}

/// The message parts signed inside a token: the compressed `Tk`, then the
/// compressed `PI`.
pub open spec fn token_parts(tkv: nat, piv: nat) -> Seq<Seq<u8>> {
    seq![g1_bytes_of(tkv), g1_bytes_of(piv)]
}

/// The token's Fiat-Shamir scalar: the hash of the compressed `M`, `Mk` and
/// `PI`, in that order.
pub open spec fn token_challenge(mv: nat, mkv: nat, piv: nat) -> nat {
    hash_of(g1_bytes_of(mv) + g1_bytes_of(mkv) + g1_bytes_of(piv))
}

/// What `Token::verify` decides: the embedded Schnorr signature over
/// `(Tk, PI)` with `M` in the generator role must verify, and the batched
/// pairing identity `e(Tk, G2) == e(PI, A2) · e(Mk^c, A2)` must hold.
pub open spec fn token_accepted(
    tkv: nat,
    mv: nat,
    piv: nat,
    mkv: nat,
    cv: nat,
    pv: nat,
    g2v: nat,
    a2v: nat,
) -> bool {
    &&& schnorr_verifies(cv, pv, mv, mkv, token_parts(tkv, piv))
    &&& fmul(tkv, g2v) == fadd(fmul(piv, a2v), fmul(fmul(mkv, token_challenge(mv, mkv, piv)), a2v))
}

/// The client-assembled credential: the interpolated values `Tk`, `M` and
/// `PI` plus an extended Schnorr signature binding them to the per-request
/// secret.
#[derive(Clone, Copy, Debug)]
pub struct Token {
    pub Tk: G1Elem,
    pub M: G1Elem,
    pub PI: G1Elem,
    pub sig: ExtSignature,
}

impl Token {
    /// Builds the token: an extended signature over `(Tk, PI)` with secret
    /// `k` and the session basis `M` in the generator role.
    pub fn new(k: Scalar, Tk: G1Elem, M: G1Elem, PI: G1Elem) -> (r: Token)
        ensures
            r.Tk == Tk && r.M == M && r.PI == PI,
            r.sig.P1.v() == fmul(M.v(), k.v()),
            r.sig.sig.c.v() == crate::signatures::spec_challenge(
                g1_bytes_of(M.v()),
                g1_bytes_of(fmul(M.v(), k.v())),
                g1_bytes_of(fmul(M.v(), spec_nonce(k.bytes(), token_parts(Tk.v(), PI.v())))),
                token_parts(Tk.v(), PI.v()),
            ),
            r.sig.sig.p.v() == fsub(
                spec_nonce(k.bytes(), token_parts(Tk.v(), PI.v())),
                fmul(r.sig.sig.c.v(), k.v()),
            ),
    {
        let mut data: Vec<Vec<u8>> = Vec::new();
        let tkc = Tk.compressed();
        data.push(vstd::slice::slice_to_vec(tkc.as_slice()));
        let pic = PI.compressed();
        data.push(vstd::slice::slice_to_vec(pic.as_slice()));
        proof {
            assert(parts_view(data@) =~= token_parts(Tk.v(), PI.v()));
        }
        let sig = ExtSignature::sign(&k, &M, data.as_slice());
        Token { Tk, M, PI, sig }
    }

    /// Verifies the token against the committee's public values: the
    /// embedded signature against `M`, then the pairing identity, evaluated
    /// as one batched multi-pairing with a single final exponentiation.
    pub fn verify(&self, setup: &NetworkSetup) -> (r: bool)
        ensures
            r == token_accepted(
                self.Tk.v(),
                self.M.v(),
                self.PI.v(),
                self.sig.P1.v(),
                self.sig.sig.c.v(),
                self.sig.sig.p.v(),
                setup.G2A.v(),
                setup.A2.v(),
            ),
    {
        let mut data: Vec<Vec<u8>> = Vec::new();
        let tkc = self.Tk.compressed();
        data.push(vstd::slice::slice_to_vec(tkc.as_slice()));
        let pic = self.PI.compressed();
        data.push(vstd::slice::slice_to_vec(pic.as_slice()));
        proof {
            assert(parts_view(data@) =~= token_parts(self.Tk.v(), self.PI.v()));
        }
        if !self.sig.verify(&self.M, data.as_slice()) {
            return false;
        }
        let mut buf: Vec<u8> = Vec::new();
        let mc = self.M.compressed();
        extend_bytes(&mut buf, mc.as_slice());
        let mkc_b = self.sig.P1.compressed();
        extend_bytes(&mut buf, mkc_b.as_slice());
        extend_bytes(&mut buf, pic.as_slice());
        proof {
            assert(buf@ =~= g1_bytes_of(self.M.v()) + g1_bytes_of(self.sig.P1.v())
                + g1_bytes_of(self.PI.v()));
        }
        let c = hash_to_scalar(buf.as_slice());
        let mkc = self.sig.P1.mul(&c);
        multi_pairing_check(&self.Tk, &setup.G2A, &self.PI, &mkc, &setup.A2)
    }
}

impl NetworkSetup {
    /// One fresh share per committee member: member `i` draws a nonce and
    /// derives its per-session share as
    /// `Hash(nonce, session id, Y, location.Yl, profile.Ar)`.  This hash
    /// commitment stands in for an interactive per-party randomness
    /// subprotocol; nothing is promised of the values beyond validity.
    fn mi_shares(&self, sess: &[u8], yl: &[u8], ar: &[u8]) -> (r: ShareVector)
        requires
            self.wf(),
        ensures
            r.0@.len() == self.threshold + 1,
            forall|j: int| 0 <= j < r.0@.len() ==> (#[trigger] r.0@[j]).i == j + 1,
            forall|j: int| 0 <= j < r.0@.len()
                ==> share_vals(r.0@)[j] < field_r(),
    {
        let n = self.threshold + 1;
        let mut out: Vec<Share> = Vec::new();
        let mut i: usize = 0;
        while i < n
            invariant
                i <= n,
                out@.len() == i,
                forall|j: int| 0 <= j < i ==> (#[trigger] out@[j]).i == j + 1,
                forall|j: int| 0 <= j < i ==> (#[trigger] out@[j]).yi.v() < field_r(),
                n <= u32::MAX,
            decreases n - i,
        {
            let mut ni = rnd_scalar();
            let mut buf: Vec<u8> = Vec::new();
            let nb = ni.to_bytes();
            extend_bytes(&mut buf, nb.as_slice());
            extend_bytes(&mut buf, sess);
            let yc = self.Y.compressed();
            extend_bytes(&mut buf, yc.as_slice());
            extend_bytes(&mut buf, yl);
            extend_bytes(&mut buf, ar);
            let yi = hash_to_scalar(buf.as_slice());
            ni.wipe();
            proof {
                crate::algebra::lemma_field_r_bounds();
            }
            out.push(Share { i: (i + 1) as u32, yi });
            i += 1;
        }
        let result = ShareVector(out);
        proof {
            assert(forall|j: int| 0 <= j < result.0@.len()
                ==> share_vals(result.0@)[j] == (#[trigger] result.0@[j]).yi.v());
        }
        result
    }

    /// Opens a session.  The client's extended signature is verified over
    /// `(profile name, seq, time)`; the timestamp must lie within thirty
    /// seconds of `now` and the sequence number must exceed the last
    /// accepted one; the profile and its location must be registered.  Each
    /// committee member derives its per-session share, and the method
    /// returns the lifted share vectors `(mi · G1, yi · R)` for client-side
    /// interpolation, stores the session under `(seq, time)`, and advances
    /// the replay counter to `seq`.  On failure nothing changes.
    pub fn start(
        &mut self,
        sig: ExtSignature,
        profile: &str,
        seq: u64,
        time: u64,
        now: u64,
    ) -> (r: Result<(PointShareVector, PointShareVector), Error>)
        requires
            old(self).wf(),
        ensures
            final(self).wf(),
            final(self).same_committee(*old(self)),
            forall|n: Seq<char>| final(self).loc_of(n) == old(self).loc_of(n),
            forall|n: Seq<char>| final(self).prof_of(n) == old(self).prof_of(n),
            match r {
                Ok(pts) => start_sig_ok(*old(self), sig, profile.spec_bytes(), seq, time)
                    && window_ok(time, now)
                    && seq > old(self).last_seq()
                    && (old(self).prof_of(profile@) matches Some(p)
                        && old(self).loc_of(p.loc@) is Some
                        && pts.1.0@.len() == old(self).threshold + 1
                        && (forall|j: int| 0 <= j < pts.1.0@.len()
                            ==> (#[trigger] pts.1.0@[j]).i == j + 1
                                && pts.1.0@[j].Yi.v()
                                    == fmul(p.R.v(), share_vals(old(self).yi.0@)[j]))
                        && pts.0.0@.len() == old(self).threshold + 1
                        && (final(self).session_at(seq, time) matches Some(sp)
                            && sp.1 == p
                            && sp.0.len() == old(self).threshold + 1
                            && (forall|j: int| 0 <= j < sp.0.len() ==> #[trigger] sp.0[j] < field_r())
                            && (forall|j: int| 0 <= j < sp.0.len()
                                ==> (#[trigger] pts.0.0@[j]).i == j + 1
                                    && pts.0.0@[j].Yi.v() == sp.0[j])))
                    && final(self).last_seq() == seq
                    && (forall|s2: u64, t2: u64| (s2, t2) != (seq, time)
                        ==> final(self).session_at(s2, t2) == old(self).session_at(s2, t2)),
                Err(e) => *final(self) == *old(self)
                    && if !start_sig_ok(*old(self), sig, profile.spec_bytes(), seq, time) {
                        e == Error::SignatureInvalid
                    } else if !(window_ok(time, now) && seq > old(self).last_seq()) {
                        e == Error::ReplayRejected
                    } else {
                        e == Error::InvalidRegistration
                            && match old(self).prof_of(profile@) {
                                None => true,
                                Some(p) => old(self).loc_of(p.loc@) is None,
                            }
                    },
            },
    {
        let seq_b = vstd::bytes::u64_to_le_bytes(seq);
        let time_b = vstd::bytes::u64_to_le_bytes(time);
        let mut data: Vec<Vec<u8>> = Vec::new();
        data.push(vstd::slice::slice_to_vec(profile.as_bytes()));
        data.push(vstd::slice::slice_to_vec(seq_b.as_slice()));
        data.push(vstd::slice::slice_to_vec(time_b.as_slice()));
        proof {
            assert(parts_view(data@) =~= start_parts(profile.spec_bytes(), seq, time));
        }
        if !sig.verify(&self.G1, data.as_slice()) {
            return Err(Error::SignatureInvalid);
        }
        let too_old = time < now && now - time > 30;
        let too_new = time > now && time - now > 30;
        if too_old || too_new || seq <= self.last {
            return Err(Error::ReplayRejected);
        }
        let name_s = profile.to_owned();
        let prof = match find_prof(&self.profiles, &name_s) {
            None => {
                return Err(Error::InvalidRegistration);
            },
            Some(p) => p,
        };
        let loc = match find_loc(&self.locations, &prof.loc) {
            None => {
                return Err(Error::InvalidRegistration);
            },
            Some(l) => l,
        };
        // The session identifier is derived from (seq, time).
        let mut sess_b: Vec<u8> = Vec::new();
        extend_bytes(&mut sess_b, seq_b.as_slice());
        extend_bytes(&mut sess_b, time_b.as_slice());
        let yl_b = loc.Yl.compressed();
        let ar_b = prof.Ar.compressed();
        let mi = self.mi_shares(sess_b.as_slice(), yl_b.as_slice(), ar_b.as_slice());
        let ghost ms = share_vals(mi.0@);
        let mi_pts = mi.lift(&self.G1);
        let pi_pts = self.yi.lift(&prof.R);
        self.last = seq;
        let ghost prof_g = prof;
        let entry = ((seq, time), Session { mi, profile: prof });
        self.sessions.insert(0, entry);
        proof {
            // The new entry is found under its own key.
            assert(self.sessions@[0] == entry);
            assert(self.sessions@.drop_first() =~= old(self).sessions@);
            assert(old(self).prof_of(profile@) == Some(prof_g));
            assert(self.session_at(seq, time) == Some((ms, prof_g)));
            assert forall|j: int| 0 <= j < pi_pts.0@.len()
                implies (#[trigger] pi_pts.0@[j]).Yi.v()
                    == fmul(prof_g.R.v(), share_vals(old(self).yi.0@)[j]) by {
                assert(share_vals(old(self).yi.0@)[j] == old(self).yi.0@[j].yi.v());
            }
            assert(forall|j: int| 0 <= j < ms.len()
                ==> #[trigger] ms[j] == mi.0@[j].yi.v());
            assert(ms.len() == old(self).threshold + 1);
            assert(forall|j: int| 0 <= j < ms.len() ==> #[trigger] ms[j] < field_r());
            assert forall|j: int| 0 <= j < ms.len()
                implies (#[trigger] mi_pts.0@[j]).i == j + 1 by {}

            // The lifted mi shares carry the plain share values: G1 is the
            // generator, and every value is already reduced.
            assert forall|j: int| 0 <= j < ms.len()
                implies (#[trigger] mi_pts.0@[j]).Yi.v() == ms[j] by {
                assert(mi_pts.0@[j].Yi.v() == fmul(old(self).G1.v(), mi.0@[j].yi.v()));
                assert(1 * ms[j] == ms[j]);
                vstd::arithmetic::div_mod::lemma_small_mod(ms[j], field_r());
            }
            // Every stored key is at most the old counter, so strictly
            // below the new one: the fresh key is unique and lookups under
            // other keys are unchanged.
            assert forall|s2: u64, t2: u64| (s2, t2) != (seq, time)
                implies self.session_at(s2, t2) == old(self).session_at(s2, t2) by {
                lemma_assoc_sess_insert_front(old(self).sessions@, entry, (s2, t2));
            }
        }
        Ok((mi_pts, pi_pts))
    }

    /// Hands out the token shares for a session and consumes it.  The
    /// commitment pair `(Akc, Kc)` must satisfy `e(Akc, G2) == e(Kc, A2)`;
    /// the session must exist, and it is removed — a second request under
    /// the same identifier fails with `SessionNotFound`.  Each member `i`
    /// returns `Tki = yi·Ar + mi·Akc`.  On failure nothing changes.
    pub fn request(
        &mut self,
        seq: u64,
        time: u64,
        Akc: &G1Elem,
        Kc: &G1Elem,
    ) -> (r: Result<PointShareVector, Error>)
        requires
            old(self).wf(),
        ensures
            final(self).wf(),
            final(self).same_committee(*old(self)),
            final(self).last_seq() == old(self).last_seq(),
            forall|n: Seq<char>| final(self).loc_of(n) == old(self).loc_of(n),
            forall|n: Seq<char>| final(self).prof_of(n) == old(self).prof_of(n),
            match r {
                Ok(tki) => fmul(Akc.v(), old(self).G2A.v()) == fmul(Kc.v(), old(self).A2.v())
                    && (old(self).session_at(seq, time) matches Some(sp)
                        && tki.0@.len() == old(self).threshold + 1
                        && (forall|j: int| 0 <= j < tki.0@.len()
                            ==> (#[trigger] tki.0@[j]).i == j + 1
                                && tki.0@[j].Yi.v() == fadd(
                                    fmul(sp.1.Ar.v(), share_vals(old(self).yi.0@)[j]),
                                    fmul(Akc.v(), sp.0[j]),
                                )))
                    && final(self).session_at(seq, time) is None
                    && (forall|s2: u64, t2: u64| (s2, t2) != (seq, time)
                        ==> final(self).session_at(s2, t2) == old(self).session_at(s2, t2)),
                Err(e) => *final(self) == *old(self)
                    && if fmul(Akc.v(), old(self).G2A.v()) != fmul(Kc.v(), old(self).A2.v()) {
                        e == Error::InvalidRegistration
                    } else {
                        e == Error::SessionNotFound && old(self).session_at(seq, time) is None
                    },
            },
    {
        if !pairing_eq(Akc, &self.G2A, Kc, &self.A2) {
            return Err(Error::InvalidRegistration);
        }
        // Locate the session.
        let mut pos: usize = 0;
        let n = self.sessions.len();
        let mut found = false;
        let mut k: usize = 0;
        while k < n
            invariant
                k <= n,
                n == self.sessions@.len(),
                !found ==> forall|m: int| 0 <= m < k
                    ==> (#[trigger] self.sessions@[m]).0 != (seq, time),
                found ==> pos < n && self.sessions@[pos as int].0 == (seq, time)
                    && (forall|m: int| 0 <= m < pos
                        ==> (#[trigger] self.sessions@[m]).0 != (seq, time)),
            decreases n - k,
        {
            if !found && self.sessions[k].0.0 == seq && self.sessions[k].0.1 == time {
                found = true;
                pos = k;
            }
            k += 1;
        }
        if !found {
            proof {
                lemma_assoc_sess_absent(self.sessions@, (seq, time));
            }
            return Err(Error::SessionNotFound);
        }
        proof {
            lemma_assoc_sess_skip(self.sessions@, (seq, time), pos as int);
            assert(self.sessions@.skip(pos as int)[0] == self.sessions@[pos as int]);
        }
        let ghost pre = self.sessions@;
        let entry = self.sessions.remove(pos);
        let session = entry.1;
        let tki_y = self.yi.lift(&session.profile.Ar);
        let tki_m = session.mi.lift(Akc);
        proof {
            // The committee shares and the session shares carry the same
            // indices, so the pairwise addition cannot fail.
            assert(session_ok(pre[pos as int].1, self.threshold as int));
            // Uniqueness of stored keys lets the removal lemma apply.
            assert forall|m: int| 0 <= m < pre.len() && m != pos
                implies (#[trigger] pre[m]).0 != (seq, time) by {
                if m < pos {
                    assert(pre[m].0 != pre[pos as int].0);
                } else {
                    assert(pre[pos as int].0 != pre[m].0);
                }
            }
            lemma_assoc_sess_remove(pre, pos as int, (seq, time));
        }
        let combined = tki_y.add(&tki_m);
        match combined {
            Ok(tki) => {
                let mut mi = session.mi;
                mi.wipe();
                Ok(tki)
            },
            Err(_) => {
                proof {
                    assert(false);
                }
                Err(Error::SessionNotFound)
            },
        }
    }
}

/// The token pairing identity.  A client who interpolates `Tk`, `PI` and
/// `M` from the share vectors that `start` and `request` hand out — over any
/// selection of evaluation points — obtains values satisfying the batched
/// pairing check of `Token::verify`, whatever the per-session share values
/// were: the identity rests only on the linearity of interpolation and the
/// registration and request pairing checks, not on the shares themselves.
pub proof fn lemma_token_pairing_identity(
    range: Seq<nat>,
    yivals: Seq<nat>,
    mivals: Seq<nat>,
    tkivals: Seq<nat>,
    pivals: Seq<nat>,
    a: nat,
    rv: nat,
    arv: nat,
    kv: nat,
    cv: nat,
    kcv: nat,
    akcv: nat,
    tk: nat,
    pi: nat,
    m: nat,
    mk: nat,
)
    requires
        yivals.len() == mivals.len(),
        tkivals.len() == mivals.len(),
        pivals.len() == mivals.len(),
        // The profile registration check bound Ar to R and the
        // authorization exponent.
        arv == fmul(rv, a),
        // The request check bound Akc to Kc, and the client derived Kc from
        // its token key and the challenge.
        akcv == fmul(kcv, a),
        kcv == fmul(kv, cv),
        // The committee's token shares.
        forall|j: int| 0 <= j < tkivals.len()
            ==> #[trigger] tkivals[j] == fadd(fmul(arv, yivals[j]), fmul(akcv, mivals[j])),
        // The lifted identity shares.
        forall|j: int| 0 <= j < pivals.len()
            ==> #[trigger] pivals[j] == fmul(rv, yivals[j]),
        // The client-side interpolations and the embedded key.
        tk == crate::shares::interp(range, tkivals),
        pi == crate::shares::interp(range, pivals),
        m == crate::shares::interp(range, mivals),
        mk == fmul(m, kv),
    ensures
        fmul(tk, 1) == fadd(fmul(pi, a), fmul(fmul(mk, cv), a)),
{
    let n = mivals.len() as int;
    let yint = crate::shares::interp_upto(range, yivals, n);
    crate::shares::lemma_interp_lin2(range, yivals, mivals, tkivals, arv, akcv, n);
    crate::shares::lemma_interp_scale(range, yivals, pivals, rv, n);
    assert(tk == fadd(fmul(arv, yint), fmul(akcv, m)));
    assert(pi == fmul(rv, yint));
    // First term: Ar = R^a, so Ar^yint == (R^yint)^a.
    crate::algebra::lemma_fmul_assoc(rv, a, yint);
    crate::algebra::lemma_fmul_comm(a, yint);
    crate::algebra::lemma_fmul_assoc(rv, yint, a);
    assert(fmul(arv, yint) == fmul(pi, a));
    // Second term: Akc = (k·c)^a, so Akc^m == ((m·k)·c)^a.
    crate::algebra::lemma_fmul_comm(fmul(fmul(kv, cv), a), m);
    crate::algebra::lemma_fmul_assoc(m, fmul(kv, cv), a);
    crate::algebra::lemma_fmul_assoc(m, kv, cv);
    assert(fmul(akcv, m) == fmul(fmul(mk, cv), a));
    // The left side is already reduced.
    crate::algebra::lemma_field_r_bounds();
    assert(fmul(tk, 1) == tk) by {
        assert(tk * 1 == tk);
        vstd::arithmetic::div_mod::lemma_small_mod(tk, field_r());
    }
}

/// An honestly assembled token passes `Token::verify`.  The hypotheses are
/// exactly what the contracts of `start`, `request`, the interpolations and
/// `Token::new` establish, with the committee's generators standard
/// (`G2A = G2`, so its exponent is 1) and `A2 = G2^a`; the conclusion is
/// exactly what `Token::verify` decides.
pub proof fn lemma_honest_token_accepted(
    range: Seq<nat>,
    yivals: Seq<nat>,
    mivals: Seq<nat>,
    tkivals: Seq<nat>,
    pivals: Seq<nat>,
    a: nat,
    rv: nat,
    arv: nat,
    kv: nat,
    kcv: nat,
    akcv: nat,
    tk: nat,
    pi: nat,
    m: nat,
    kb: Seq<u8>,
)
    requires
        yivals.len() == mivals.len(),
        tkivals.len() == mivals.len(),
        pivals.len() == mivals.len(),
        arv == fmul(rv, a),
        akcv == fmul(kcv, a),
        kcv == fmul(kv, token_challenge(m, fmul(m, kv), pi)),
        forall|j: int| 0 <= j < tkivals.len()
            ==> #[trigger] tkivals[j] == fadd(fmul(arv, yivals[j]), fmul(akcv, mivals[j])),
        forall|j: int| 0 <= j < pivals.len()
            ==> #[trigger] pivals[j] == fmul(rv, yivals[j]),
        tk == crate::shares::interp(range, tkivals),
        pi == crate::shares::interp(range, pivals),
        m == crate::shares::interp(range, mivals),
    ensures
        token_accepted(
            tk,
            m,
            pi,
            fmul(m, kv),
            crate::signatures::spec_challenge(
                g1_bytes_of(m),
                g1_bytes_of(fmul(m, kv)),
                g1_bytes_of(fmul(m, spec_nonce(kb, token_parts(tk, pi)))),
                token_parts(tk, pi),
            ),
            fsub(
                spec_nonce(kb, token_parts(tk, pi)),
                fmul(
                    crate::signatures::spec_challenge(
                        g1_bytes_of(m),
                        g1_bytes_of(fmul(m, kv)),
                        g1_bytes_of(fmul(m, spec_nonce(kb, token_parts(tk, pi)))),
                        token_parts(tk, pi),
                    ),
                    kv,
                ),
            ),
            1,
            a,
        ),
{
    // The embedded Schnorr signature over (Tk, PI) verifies.
    crate::signatures::lemma_sign_verify_roundtrip(m, kv, kb, token_parts(tk, pi));
    // The batched pairing identity holds.
    let cv = token_challenge(m, fmul(m, kv), pi);
    lemma_token_pairing_identity(
        range, yivals, mivals, tkivals, pivals,
        a, rv, arv, kv, cv, kcv, akcv,
        tk, pi, m, fmul(m, kv),
    );
}

} // verus!
