use vstd::prelude::*;

verus! {

/// A secret key as read from an OpenSSH private key file.
#[derive(Clone)]
pub enum PrivateKey {
    /// RSA key parts.
    Rsa { n: Vec<u8>, e: Vec<u8>, d: Vec<u8>, iqmp: Vec<u8>, p: Vec<u8>, q: Vec<u8> },
    /// Ed25519 secret key: the 32-byte seed followed by the 32-byte public key.
    Ed25519([u8; 64]),
}

/// A public key as read from an OpenSSH `authorized_keys`-style line.
#[derive(Clone, Debug)]
pub enum PublicKey {
    /// RSA key parts.
    Rsa { exponent: Vec<u8>, modulus: Vec<u8> },
    /// Ed25519 public key.
    Ed25519([u8; 32]),
}

} // verus!
