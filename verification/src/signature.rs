//! Image signatures: what they cover, how they are made and checked, and
//! how a signature is rebuilt from its serialized parts.
use vstd::prelude::*;

use crate::cbor::{cbor_encode_signed_tuple, signing_payload};
use crate::ed25519::{
    base64_encode, base64_text, ed25519_accepts, ed25519_sign, ed25519_signature, ed25519_verify,
};
use crate::keys::{PrivateKey, PublicKey};
use crate::text::str_equals;

verus! {

/// A signature of an image upload. The serialized form must stay stable.
#[derive(Debug, Ord)]
pub enum Signature {
    /// An Ed25519 signature made with an SSH key.
    SshEd25519([u8; 64]),
}

/// The kinds of signature that the serialized form names.
#[derive(Clone, Copy, Debug, PartialEq, Eq, Structural)]
pub enum SignatureType {
    /// `ssh-ed25519`
    SshEd25519,
}

/// Why a serialized signature was refused.
#[derive(Clone, Copy, Debug, PartialEq, Eq, Structural)]
pub enum SignatureError {
    /// The type name is not one of the known ones.
    UnknownType,
    /// The signature bytes are missing or are not 64 bytes long.
    InvalidLength,
    /// The type name is missing.
    MissingType,
}

/// What a signature covers: the destination path, the image id and the
/// time of the upload in milliseconds.
pub struct SigData<'a> {
    pub path: &'a str,
    pub image: &'a [u8],
    pub timestamp: u64,
}

/// A byte string that serializes as bytes rather than as a sequence.
pub struct Bytes<'a>(pub &'a [u8]);

/// The type name of an Ed25519 SSH signature.
pub open spec fn ssh_ed25519_name() -> Seq<char> {
    seq!['s', 's', 'h', '-', 'e', 'd', '2', '5', '5', '1', '9']
}

impl Signature {
    /// The 64 signature bytes.
    pub open spec fn bytes_view(&self) -> Seq<u8> {
        match self {
            Signature::SshEd25519(b) => b@,
        }
    }

    /// The signature bytes.
    pub fn bytes(&self) -> (res: &[u8; 64])
        ensures
            res@ == self.bytes_view(),
    {
        match self {
            Signature::SshEd25519(b) => b,
        }
    }

    /// The kind of this signature.
    pub fn signature_type(&self) -> (res: SignatureType)
        ensures
            res == SignatureType::SshEd25519,
    {
        match self {
            Signature::SshEd25519(_) => SignatureType::SshEd25519,
        }
    }

    /// The type name written in the serialized form.
    pub fn kind_name(&self) -> (res: &'static str)
        ensures
            res@ == ssh_ed25519_name(),
    {
        proof {
            reveal_strlit("ssh-ed25519");
        }
        match self {
            Signature::SshEd25519(_) => "ssh-ed25519",
        }
    }

    /// The human-readable form: the type name, a space and the base64 of the
    /// signature bytes.
    pub fn to_text(&self) -> (res: String)
        ensures
            res@ == "ssh-ed25519 "@ + base64_text(self.bytes_view()),
    {
        match self {
            Signature::SshEd25519(b) => {
                let encoded = base64_encode(b);
                let mut res = String::from_str("ssh-ed25519 ");
                res.append(encoded.as_str());
                res
            },
        }
    }

    /// The debugging form: `SshEd25519(` then the base64 of the signature
    /// bytes and `)`.
    pub fn debug_text(&self) -> (res: String)
        ensures
            res@ == "SshEd25519("@ + base64_text(self.bytes_view()) + ")"@,
    {
        match self {
            Signature::SshEd25519(b) => {
                let encoded = base64_encode(b);
                let mut res = String::from_str("SshEd25519(");
                res.append(encoded.as_str());
                res.append(")");
                res
            },
        }
    }

    /// Rebuilds a signature from the two elements of its serialized
    /// sequence: the type, then the signature bytes (read only when a type
    /// was there).
    pub fn from_elements(kind: Option<SignatureType>, value: Option<[u8; 64]>) -> (res: Result<
        Signature,
        SignatureError,
    >)
        ensures
            kind is None ==> res == Err::<Signature, SignatureError>(SignatureError::MissingType),
            kind is Some && value is None ==> res == Err::<Signature, SignatureError>(
                SignatureError::InvalidLength,
            ),
            kind is Some && value is Some ==> res == Ok::<Signature, SignatureError>(
                Signature::SshEd25519(value->0),
            ),
    {
        match kind {
            Some(SignatureType::SshEd25519) => match value {
                Some(v) => Ok(Signature::SshEd25519(v)),
                None => Err(SignatureError::InvalidLength),
            },
            None => Err(SignatureError::MissingType),
        }
    }
}

impl Clone for Signature {
    fn clone(&self) -> (res: Signature)
        ensures
            res == *self,
    {
        match self {
            Signature::SshEd25519(val) => Signature::SshEd25519(*val),
        }
    }
}

impl SignatureType {
    /// Reads a type name; only `ssh-ed25519` is known.
    pub fn from_name(value: &str) -> (res: Result<SignatureType, SignatureError>)
        ensures
            value@ == ssh_ed25519_name() ==> res == Ok::<SignatureType, SignatureError>(
                SignatureType::SshEd25519,
            ),
            value@ != ssh_ed25519_name() ==> res == Err::<SignatureType, SignatureError>(
                SignatureError::UnknownType,
            ),
    {
        proof {
            reveal_strlit("ssh-ed25519");
            assert("ssh-ed25519"@ =~= ssh_ed25519_name());
        }
        if str_equals(value, "ssh-ed25519") {
            Ok(SignatureType::SshEd25519)
        } else {
            Err(SignatureError::UnknownType)
        }
    }
}

/// Reads the bytes of an Ed25519 signature, which must be 64 long.
pub fn ed25519_bytes(value: &[u8]) -> (res: Result<[u8; 64], SignatureError>)
    ensures
        value@.len() == 64 ==> (res matches Ok(b) && b@ == value@),
        value@.len() != 64 ==> res == Err::<[u8; 64], SignatureError>(
            SignatureError::InvalidLength,
        ),
{
    if value.len() != 64 {
        return Err(SignatureError::InvalidLength);
    }
    let mut res = [0u8; 64];
    let mut i: usize = 0;
    while i < 64
        invariant
            value@.len() == 64,
            i <= 64,
            forall|j: int| 0 <= j < i ==> res@[j] == value@[j],
        decreases 64 - i,
    {
        res[i] = value[i];
        i = i + 1;
    }
    assert(res@ =~= value@);
    Ok(res)
}

/// Whether `a` comes strictly before `b` in lexicographic byte order (a
/// proper prefix comes first).
pub open spec fn bytes_precede(a: Seq<u8>, b: Seq<u8>) -> bool
    decreases a.len(),
{
    if a.len() == 0 {
        b.len() > 0
    } else if b.len() == 0 {
        false
    } else if a[0] != b[0] {
        a[0] < b[0]
    } else {
        bytes_precede(a.drop_first(), b.drop_first())
    }
}

/// Compares two signature byte strings lexicographically: `-1` when `a`
/// comes first, `0` when they are equal, `1` when `b` comes first.
pub fn compare_bytes(a: &[u8; 64], b: &[u8; 64]) -> (res: i8)
    ensures
        res == -1 <==> bytes_precede(a@, b@),
        res == 0 <==> a@ == b@,
        res == 1 <==> bytes_precede(b@, a@),
        res == -1 || res == 0 || res == 1,
{
    let mut i: usize = 0;
    assert(a@.skip(0) =~= a@);
    assert(b@.skip(0) =~= b@);
    while i < 64
        invariant
            a@.len() == 64,
            b@.len() == 64,
            i <= 64,
            forall|j: int| 0 <= j < i ==> a@[j] == b@[j],
            bytes_precede(a@, b@) == bytes_precede(a@.skip(i as int), b@.skip(i as int)),
            bytes_precede(b@, a@) == bytes_precede(b@.skip(i as int), a@.skip(i as int)),
        decreases 64 - i,
    {
        let x = a[i];
        let y = b[i];
        proof {
            let sa = a@.skip(i as int);
            let sb = b@.skip(i as int);
            assert(sa[0] == x && sb[0] == y);
            assert(sa.drop_first() =~= a@.skip(i + 1));
            assert(sb.drop_first() =~= b@.skip(i + 1));
        }
        if x < y {
            return -1;
        }
        if y < x {
            return 1;
        }
        i = i + 1;
    }
    assert(a@ =~= b@);
    assert(a@.skip(64) =~= Seq::<u8>::empty());
    assert(b@.skip(64) =~= Seq::<u8>::empty());
    0
}

/// No byte string comes before itself.
pub proof fn lemma_bytes_precede_irreflexive(a: Seq<u8>)
    ensures
        !bytes_precede(a, a),
    decreases a.len(),
{
    if a.len() > 0 {
        lemma_bytes_precede_irreflexive(a.drop_first());
    }
}

/// Of two byte strings at most one comes before the other.
pub proof fn lemma_bytes_precede_asymmetric(a: Seq<u8>, b: Seq<u8>)
    ensures
        bytes_precede(a, b) ==> !bytes_precede(b, a),
    decreases a.len(),
{
    if a.len() > 0 && b.len() > 0 && a[0] == b[0] {
        lemma_bytes_precede_asymmetric(a.drop_first(), b.drop_first());
    }
}

/// Of two different byte strings one comes before the other.
pub proof fn lemma_bytes_precede_total(a: Seq<u8>, b: Seq<u8>)
    ensures
        a != b ==> bytes_precede(a, b) || bytes_precede(b, a),
    decreases a.len(),
{
    if a.len() > 0 && b.len() > 0 && a[0] == b[0] {
        lemma_bytes_precede_total(a.drop_first(), b.drop_first());
        if a.drop_first() == b.drop_first() {
            assert(a =~= seq![a[0]] + a.drop_first());
            assert(b =~= seq![b[0]] + b.drop_first());
        }
    } else if a.len() == 0 && b.len() == 0 {
        assert(a =~= b);
    }
}

/// Byte order is transitive.
pub proof fn lemma_bytes_precede_transitive(a: Seq<u8>, b: Seq<u8>, c: Seq<u8>)
    requires
        bytes_precede(a, b),
        bytes_precede(b, c),
    ensures
        bytes_precede(a, c),
    decreases a.len(),
{
    if a.len() > 0 && b.len() > 0 && c.len() > 0 && a[0] == b[0] && b[0] == c[0] {
        lemma_bytes_precede_transitive(a.drop_first(), b.drop_first(), c.drop_first());
    }
}

impl<'a> SigData<'a> {
    /// The bytes that a signature of this data covers.
    pub open spec fn payload(&self) -> Seq<u8> {
        signing_payload(self.path@, self.image@, self.timestamp)
    }

    /// Encodes the bytes that a signature of this data covers.
    pub fn signing_payload(&self) -> (res: Vec<u8>)
        ensures
            res@ == self.payload(),
    {
        cbor_encode_signed_tuple(self.path, self.image, self.timestamp)
    }
}

impl<'a> Bytes<'a> {
    /// The wrapped bytes.
    pub fn as_slice(&self) -> (res: &'a [u8])
        ensures
            res@ == self.0@,
    {
        self.0
    }
}

/// Whether `key` accepts `signature` over `message`: an Ed25519 key an
/// Ed25519 signature that Ed25519 accepts; any other key nothing.
pub open spec fn key_accepts(key: PublicKey, message: Seq<u8>, signature: Signature) -> bool {
    match key {
        PublicKey::Ed25519(pk) => ed25519_accepts(message, pk@, signature.bytes_view()),
        PublicKey::Rsa { .. } => false,
    }
}

/// Whether one of `keys` accepts `signature` over `message`.
pub open spec fn accepted_by(keys: Seq<PublicKey>, message: Seq<u8>, signature: Signature) -> bool {
    exists|i: int| 0 <= i < keys.len() && key_accepts(#[trigger] keys[i], message, signature)
}

/// Checking against two lists of keys one after the other accepts exactly
/// what one of the lists accepts: adding keys never withdraws acceptance,
/// and no list of keys accepts when it is empty.
pub proof fn lemma_accepted_by_concat(
    keys1: Seq<PublicKey>,
    keys2: Seq<PublicKey>,
    message: Seq<u8>,
    signature: Signature,
)
    ensures
        accepted_by(keys1 + keys2, message, signature) == (accepted_by(keys1, message, signature)
            || accepted_by(keys2, message, signature)),
        !accepted_by(Seq::empty(), message, signature),
{
    let all = keys1 + keys2;
    if accepted_by(all, message, signature) {
        let i = choose|i: int| 0 <= i < all.len() && key_accepts(#[trigger] all[i], message, signature);
        if i < keys1.len() {
            assert(all[i] == keys1[i]);
        } else {
            assert(all[i] == keys2[i - keys1.len()]);
        }
    }
    if accepted_by(keys1, message, signature) {
        let i = choose|i: int| 0 <= i < keys1.len() && key_accepts(#[trigger] keys1[i], message, signature);
        assert(all[i] == keys1[i]);
    }
    if accepted_by(keys2, message, signature) {
        let i = choose|i: int| 0 <= i < keys2.len() && key_accepts(#[trigger] keys2[i], message, signature);
        assert(all[keys1.len() + i] == keys2[i]);
    }
}

/// The secret bytes of an Ed25519 key.
pub open spec fn ed25519_secret(key: PrivateKey) -> Seq<u8> {
    match key {
        PrivateKey::Ed25519(b) => b@,
        PrivateKey::Rsa { .. } => Seq::empty(),
    }
}

/// Signs `src` with every key, in order. Only Ed25519 keys can sign.
pub fn sign(src: SigData, keys: &[PrivateKey]) -> (res: Vec<Signature>)
    requires
        forall|i: int| 0 <= i < keys@.len() ==> keys@[i] is Ed25519,
    ensures
        res@.len() == keys@.len(),
        forall|i: int|
            0 <= i < keys@.len() ==> (#[trigger] res@[i]).bytes_view() == ed25519_signature(
                src.payload(),
                ed25519_secret(keys@[i]),
            ),
{
    let buf = src.signing_payload();
    let mut res: Vec<Signature> = Vec::new();
    let mut i: usize = 0;
    while i < keys.len()
        invariant
            buf@ == src.payload(),
            i <= keys@.len(),
            res@.len() == i,
            forall|j: int| 0 <= j < keys@.len() ==> keys@[j] is Ed25519,
            forall|j: int|
                0 <= j < i ==> (#[trigger] res@[j]).bytes_view() == ed25519_signature(
                    src.payload(),
                    ed25519_secret(keys@[j]),
                ),
        decreases keys@.len() - i,
    {
        let signature = match &keys[i] {
            PrivateKey::Ed25519(bytes) => Signature::SshEd25519(ed25519_sign(buf.as_slice(), bytes)),
            PrivateKey::Rsa { .. } => {
                proof {
                    assert(keys@[i as int] is Ed25519);
                }
                unreached()
            },
        };
        res.push(signature);
        i = i + 1;
    }
    res
}

/// Whether one of `keys` accepts `signature` over `src`.
pub fn verify(src: &SigData, signature: &Signature, keys: &[PublicKey]) -> (res: bool)
    ensures
        res == accepted_by(keys@, src.payload(), *signature),
{
    let buf = src.signing_payload();
    let mut i: usize = 0;
    while i < keys.len()
        invariant
            buf@ == src.payload(),
            i <= keys@.len(),
            forall|j: int| 0 <= j < i ==> !key_accepts(#[trigger] keys@[j], src.payload(), *signature),
        decreases keys@.len() - i,
    {
        let accepted = match (&keys[i], signature) {
            (PublicKey::Ed25519(key), Signature::SshEd25519(sig)) => ed25519_verify(
                buf.as_slice(),
                key,
                sig,
            ),
            (PublicKey::Rsa { .. }, _) => false,
        };
        if accepted {
            assert(key_accepts(keys@[i as int], src.payload(), *signature));
            return true;
        }
        i = i + 1;
    }
    false
}

} // verus!
