//! One-pass signature packets.

use vstd::prelude::*;
use crate::packet::{HashAlgorithm, KeyID, Packet, PublicKeyAlgorithm, SignatureType};

verus! {

/// Announces a signature that follows the data it signs, so that the data can
/// be hashed in one pass. Two such packets are equal when all their fields are.
#[derive(Clone, Copy, Debug, PartialEq, Eq, Structural)]
pub struct OnePassSig {
    /// Packet version. Is 3 for a new packet.
    pub version: u8,
    /// Type of the signature.
    pub sigtype: SignatureType,
    /// Hash algorithm used to compute the signature.
    pub hash_algo: HashAlgorithm,
    /// Public key algorithm of the signature.
    pub pk_algo: PublicKeyAlgorithm,
    /// The identifier of the signing key.
    pub issuer: KeyID,
    /// Zero where another one-pass signature packet follows, else not zero.
    pub last: u8,
}

impl OnePassSig {
    /// A new packet of version 3 for the given type of signature, with unknown
    /// algorithms, the issuer zero, and the last flag set.
    pub fn new(sigtype: SignatureType) -> (r: OnePassSig)
        ensures
            r == (OnePassSig {
                version: 3,
                sigtype,
                hash_algo: HashAlgorithm(0),
                pk_algo: PublicKeyAlgorithm(0),
                issuer: KeyID(0),
                last: 1,
            }),
    {
        OnePassSig {
            version: 3,
            sigtype,
            hash_algo: HashAlgorithm(0),
            pk_algo: PublicKeyAlgorithm(0),
            issuer: KeyID::new(0),
            last: 1,
        }
    }

    /// Gets the signature type.
    pub fn sigtype(&self) -> (r: SignatureType)
        ensures
            r == self.sigtype,
    {
        self.sigtype
    }

    /// Sets the signature type.
    pub fn set_sigtype(&mut self, t: SignatureType)
        ensures
            *final(self) == (OnePassSig { sigtype: t, ..*old(self) }),
    {
        self.sigtype = t;
    }

    /// Gets the public key algorithm.
    pub fn pk_algo(&self) -> (r: PublicKeyAlgorithm)
        ensures
            r == self.pk_algo,
    {
        self.pk_algo
    }

    /// Sets the public key algorithm.
    pub fn set_pk_algo(&mut self, algo: PublicKeyAlgorithm)
        ensures
            *final(self) == (OnePassSig { pk_algo: algo, ..*old(self) }),
    {
        self.pk_algo = algo;
    }

    /// Gets the hash algorithm.
    pub fn hash_algo(&self) -> (r: HashAlgorithm)
        ensures
            r == self.hash_algo,
    {
        self.hash_algo
    }

    /// Sets the hash algorithm.
    pub fn set_hash_algo(&mut self, algo: HashAlgorithm)
        ensures
            *final(self) == (OnePassSig { hash_algo: algo, ..*old(self) }),
    {
        self.hash_algo = algo;
    }

    /// Gets the issuer.
    pub fn issuer(&self) -> (r: &KeyID)
        ensures
            *r == self.issuer,
    {
        &self.issuer
    }

    /// Sets the issuer.
    pub fn set_issuer(&mut self, issuer: KeyID)
        ensures
            *final(self) == (OnePassSig { issuer, ..*old(self) }),
    {
        self.issuer = issuer;
    }

    /// Gets the last flag.
    pub fn last(&self) -> (r: bool)
        ensures
            r == (self.last > 0),
    {
        self.last > 0
    }

    /// Sets the last flag.
    pub fn set_last(&mut self, last: bool)
        ensures
            *final(self) == (OnePassSig {
                last: if last {
                    1u8
                } else {
                    0u8
                },
                ..*old(self)
            }),
    {
        self.last = if last {
            1
        } else {
            0
        };
    }

    /// Convert the `OnePassSig` struct to a `Packet`.
    pub fn to_packet(self) -> (r: Packet)
        ensures
            r == Packet::OnePassSig(self),
    {
        Packet::OnePassSig(self)
    }
}

} // verus!
