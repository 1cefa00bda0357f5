//! Symmetric-key encrypted session key packets: what frames the session key,
//! and what is decided before and after the cipher runs.

use vstd::prelude::*;
use crate::context::Error;
use crate::packet::{HashAlgorithm, Packet, SymmetricAlgorithm};

verus! {

/// How a key is derived from a password.
#[derive(Clone, Copy, Debug, PartialEq, Eq)]
pub enum S2K {
    /// The password is hashed.
    Simple { hash: HashAlgorithm },
    /// The password is hashed together with a salt.
    Salted { hash: HashAlgorithm, salt: [u8; 8] },
    /// The password is hashed together with a salt, repeatedly.
    Iterated { hash: HashAlgorithm, salt: [u8; 8], iterations: u32 },
}

/// Holds a symmetrically encrypted session key, which is needed to decrypt the
/// actual ciphertext.
#[derive(Clone, Debug, PartialEq, Eq)]
pub struct SKESK {
    /// Packet version. Is 4.
    pub version: u8,
    /// Symmetric algorithm used to encrypt the session key.
    pub symm_algo: SymmetricAlgorithm,
    /// Key derivation method for the symmetric key.
    pub s2k: S2K,
    /// The encrypted session key.
    pub esk: Vec<u8>,
}

/// How the key of a packet is had from the key that the password gives.
#[derive(Clone, Copy, Debug, PartialEq, Eq, Structural)]
pub enum Opening {
    /// The packet holds no encrypted session key: the derived key is the key,
    /// for the packet's cipher.
    DerivedKey,
    /// The derived key decrypts the encrypted session key.
    Decrypt,
}

/// The text that is encrypted into a packet: the cipher's octet, then the session key.
pub open spec fn framed(algo: SymmetricAlgorithm, session_key: Seq<u8>) -> Seq<u8> {
    seq![algo.0] + session_key
}

/// The text that is encrypted into a packet: the octet of the cipher that
/// encrypts the payload, then the session key.
pub fn frame_session_key(algo: SymmetricAlgorithm, session_key: &[u8]) -> (r: Vec<u8>)
    ensures
        r@ == framed(algo, session_key@),
{
    let mut psk: Vec<u8> = Vec::new();
    psk.push(algo.0);
    let mut i: usize = 0;
    while i < session_key.len()
        invariant
            i <= session_key.len(),
            psk@ == seq![algo.0] + session_key@.take(i as int),
        decreases session_key.len() - i,
    {
        psk.push(session_key[i]);
        assert(session_key@.take(i + 1) =~= session_key@.take(i as int).push(
            session_key@[i as int],
        ));
        assert(psk@ =~= seq![algo.0] + session_key@.take(i + 1));
        i += 1;
    }
    assert(session_key@.take(session_key.len() as int) =~= session_key@);
    psk
}

/// The cipher and the session key that a decrypted text holds, if it is not
/// empty: its first octet names the cipher, the rest is the key.
pub fn unframe_session_key(plain: &[u8]) -> (r: Option<(SymmetricAlgorithm, Vec<u8>)>)
    ensures
        plain@.len() == 0 <==> r is None,
        match r {
            Some(pair) => pair.0 == SymmetricAlgorithm(plain@[0]) && pair.1@ == plain@.subrange(
                1,
                plain@.len() as int,
            ) && framed(pair.0, pair.1@) == plain@,
            None => true,
        },
{
    if plain.len() == 0 {
        return None;
    }
    let mut key: Vec<u8> = Vec::new();
    let mut i: usize = 1;
    while i < plain.len()
        invariant
            1 <= i <= plain.len(),
            key@ == plain@.subrange(1, i as int),
        decreases plain.len() - i,
    {
        key.push(plain[i]);
        assert(plain@.subrange(1, i + 1) =~= plain@.subrange(1, i as int).push(plain@[i as int]));
        i += 1;
    }
    assert(framed(SymmetricAlgorithm(plain@[0]), key@) =~= plain@);
    Some((SymmetricAlgorithm(plain[0]), key))
}

/// Framing a session key and taking the frame apart gives the cipher and the key back.
pub proof fn lemma_frame_round_trip(algo: SymmetricAlgorithm, session_key: Seq<u8>)
    ensures
        framed(algo, session_key).len() == session_key.len() + 1,
        framed(algo, session_key)[0] == algo.0,
        framed(algo, session_key).subrange(1, session_key.len() as int + 1) == session_key,
{
    assert(framed(algo, session_key).subrange(1, session_key.len() as int + 1) =~= session_key);
}

impl SKESK {
    /// A packet of version 4 that holds the session key as the cipher `algo`,
    /// keyed as `s2k` says, has encrypted it.
    pub fn new(algo: SymmetricAlgorithm, s2k: S2K, esk: Vec<u8>) -> (r: SKESK)
        ensures
            r == (SKESK { version: 4, symm_algo: algo, s2k, esk }),
    {
        SKESK { version: 4, symm_algo: algo, s2k, esk }
    }

    /// Convert the `SKESK` struct to a `Packet`.
    pub fn to_packet(self) -> (r: Packet)
        ensures
            r == Packet::SKESK(self),
    {
        Packet::SKESK(self)
    }

    /// How the key is had from the key that the password gives. A packet
    /// without an encrypted session key whose key derivation is the simple one
    /// cannot be opened.
    pub fn opening(&self) -> (r: Result<Opening, Error>)
        ensures
            self.esk@.len() > 0 ==> r == Ok::<Opening, Error>(Opening::Decrypt),
            self.esk@.len() == 0 && self.s2k is Simple ==> r == Err::<Opening, Error>(
                Error::InvalidOperation,
            ),
            self.esk@.len() == 0 && !(self.s2k is Simple) ==> r == Ok::<Opening, Error>(
                Opening::DerivedKey,
            ),
    {
        if self.esk.len() == 0 {
            match self.s2k {
                S2K::Simple { .. } => Err(Error::InvalidOperation),
                _ => Ok(Opening::DerivedKey),
            }
        } else {
            Ok(Opening::Decrypt)
        }
    }
}

} // verus!
