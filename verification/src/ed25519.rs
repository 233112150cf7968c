//! Ed25519 signing and checking, done by `rust-crypto`.
use vstd::prelude::*;

verus! {

/// The signature that Ed25519 makes of `message` with the 64-byte secret
/// key `secret_key` (seed followed by public key). Ed25519 signing is
/// deterministic: it depends on these two arguments alone.
pub uninterp spec fn ed25519_signature(message: Seq<u8>, secret_key: Seq<u8>) -> Seq<u8>;

/// Whether Ed25519 accepts `signature` as a signature of `message` by the
/// holder of `public_key`.
pub uninterp spec fn ed25519_accepts(message: Seq<u8>, public_key: Seq<u8>, signature: Seq<u8>) -> bool;

/// Calls `crypto::ed25519::signature`. Claimed: the 64-byte result is the
/// Ed25519 signature of `message` under `secret_key` (named, not stated).
/// The callee slices the key at `0..32` and `32..64`, which a 64-byte
/// array always allows.
#[verifier::external_body]
pub(crate) fn ed25519_sign(message: &[u8], secret_key: &[u8; 64]) -> (res: [u8; 64])
    ensures
        res@ == ed25519_signature(message@, secret_key@),
{
    crypto::ed25519::signature(message, &secret_key[..])
}

/// Calls `crypto::ed25519::verify`. Claimed: the result is whether Ed25519
/// accepts the signature (named, not stated). The callee slices the
/// signature at `0..32` and `32..64` and reads a 32-byte public key, which
/// the array types guarantee.
#[verifier::external_body]
pub(crate) fn ed25519_verify(message: &[u8], public_key: &[u8; 32], signature: &[u8; 64]) -> (res: bool)
    ensures
        res == ed25519_accepts(message@, public_key@, signature@),
{
    crypto::ed25519::verify(message, &public_key[..], &signature[..])
}

/// The character of the standard base64 alphabet for the six-bit value
/// `v`: `A`-`Z`, `a`-`z`, `0`-`9`, `+`, `/`.
pub open spec fn base64_char(v: int) -> char {
    if v < 26 {
        (65 + v) as char
    } else if v < 52 {
        (71 + v) as char
    } else if v < 62 {
        (v - 4) as char
    } else if v == 62 {
        '+'
    } else {
        '/'
    }
}

/// The standard, padded base64 text of `data`: each group of three bytes
/// gives four characters of six bits each; a last group of one or two
/// bytes gives two or three characters, padded with `=` to four.
pub open spec fn base64_text(data: Seq<u8>) -> Seq<char>
    decreases data.len(),
{
    if data.len() == 0 {
        seq![]
    } else if data.len() == 1 {
        let a = data[0] as int;
        seq![base64_char(a / 4), base64_char((a % 4) * 16), '=', '=']
    } else if data.len() == 2 {
        let a = data[0] as int;
        let b = data[1] as int;
        seq![base64_char(a / 4), base64_char((a % 4) * 16 + b / 16), base64_char((b % 16) * 4), '=']
    } else {
        let a = data[0] as int;
        let b = data[1] as int;
        let c = data[2] as int;
        seq![
            base64_char(a / 4),
            base64_char((a % 4) * 16 + b / 16),
            base64_char((b % 16) * 4 + c / 64),
            base64_char(c % 64),
        ] + base64_text(data.skip(3))
    }
}

/// Calls `base64::encode`. Claimed: the result is the standard, padded
/// base64 text of `data` (`base64::STANDARD`: the RFC 4648 alphabet, with
/// padding, no line breaks).
#[verifier::external_body]
pub(crate) fn base64_encode(data: &[u8]) -> (res: String)
    ensures
        res@ == base64_text(data@),
{
    base64::encode(data)
}

} // verus!
