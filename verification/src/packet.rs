//! The identifiers that OpenPGP packets carry, and the packets of this library.

use vstd::prelude::*;
use crate::one_pass_sig::OnePassSig;
use crate::skesk::SKESK;

verus! {

/// The type of a signature, as its octet.
#[derive(Clone, Copy, Debug, PartialEq, Eq, Structural, Hash)]
pub struct SignatureType(pub u8);

/// A hash algorithm, as its octet.
#[derive(Clone, Copy, Debug, PartialEq, Eq, Structural, Hash)]
pub struct HashAlgorithm(pub u8);

/// A public key algorithm, as its octet.
#[derive(Clone, Copy, Debug, PartialEq, Eq, Structural, Hash)]
pub struct PublicKeyAlgorithm(pub u8);

/// A symmetric cipher, as its octet.
#[derive(Clone, Copy, Debug, PartialEq, Eq, Structural, Hash)]
pub struct SymmetricAlgorithm(pub u8);

/// The identifier of a key or subkey: eight octets.
#[derive(Clone, Copy, Debug, PartialEq, Eq, Structural, Hash)]
pub struct KeyID(pub u64);

impl KeyID {
    /// The identifier with the given value.
    pub fn new(id: u64) -> (r: KeyID)
        ensures
            r == KeyID(id),
    {
        KeyID(id)
    }
}

/// A packet.
#[derive(Clone, Debug, PartialEq, Eq)]
pub enum Packet {
    OnePassSig(OnePassSig),
    SKESK(SKESK),
}

} // verus!
