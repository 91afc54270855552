//! Ephemeral Diffie–Hellman over a fixed 64-bit modulus.
use crate::modexp::{mod_pow, modexp};
use rand::Rng;
use vstd::prelude::*;

verus! {

/// The modulus shared by both parties.
pub const DH_MODULUS: u64 = 0xD87FA3E291B4C7F3;

/// The generator shared by both parties.
pub const DH_GENERATOR: u64 = 2;

/// The public value that belongs to a private exponent:
/// `generator^private mod modulus`.
pub open spec fn public_of(private: u64) -> int {
    modexp(DH_GENERATOR as int, private as nat, DH_MODULUS as int)
}

/// The secret derived from the peer's public value and one's own private
/// exponent: `peer_public^own_private mod modulus`.
pub open spec fn shared_secret(peer_public: u64, own_private: u64) -> int {
    modexp(peer_public as int, own_private as nat, DH_MODULUS as int)
}

/// An ephemeral key pair. `private` never leaves the party that drew it.
#[derive(Clone, Copy, Debug, PartialEq, Eq, Structural)]
pub struct KeyPair {
    pub private: u64,
    pub public: u64,
}

impl KeyPair {
    /// The pair is consistent: `public` belongs to `private`.
    pub open spec fn wf(&self) -> bool {
        self.public == public_of(self.private)
    }

    /// The key pair of a given private exponent.
    pub fn from_private(private: u64) -> (r: KeyPair)
        ensures
            r.private == private,
            r.wf(),
    {
        KeyPair { private, public: mod_pow(DH_GENERATOR, private, DH_MODULUS) }
    }
}

/// Relies on rand's `thread_rng` and `Rng::gen::<u64>`: a value drawn
/// uniformly from the whole 64-bit range. Nothing is promised of which one.
#[verifier::external_body]
fn draw_u64() -> (r: u64) {
    rand::thread_rng().gen::<u64>()
}

/// Draws a fresh private exponent uniformly from the 64-bit range and pairs
/// it with its public value.
pub fn generate_keypair() -> (r: KeyPair)
    ensures
        r.wf(),
{
    KeyPair::from_private(draw_u64())
}

/// `peer_public^own_private mod modulus`.
pub fn compute_shared_secret(peer_public: u64, own_private: u64) -> (r: u64)
    ensures
        r == shared_secret(peer_public, own_private),
{
    mod_pow(peer_public, own_private, DH_MODULUS)
}

/// Two honest parties agree: each one's secret, computed from the other's
/// public value, is the same.
pub proof fn lemma_keypairs_agree(a: KeyPair, b: KeyPair)
    requires
        a.wf(),
        b.wf(),
    ensures
        shared_secret(b.public, a.private) == shared_secret(a.public, b.private),
{
    crate::modexp::lemma_shared_secret_symmetry(
        DH_GENERATOR as int,
        b.private as nat,
        a.private as nat,
        DH_MODULUS as int,
    );
}

} // verus!
