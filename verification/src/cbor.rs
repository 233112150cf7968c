//! The CBOR framing of the data that image signatures cover.
//!
//! A signature covers the CBOR array `[path, image, timestamp]`: the path as
//! a text string, the image id as a byte string and the timestamp (in
//! milliseconds) as an unsigned integer. Every CBOR item starts with a head
//! that carries the major type and the argument (a length or the integer)
//! in the shortest form that fits.
use vstd::prelude::*;
use vstd::utf8::*;

verus! {

/// `256` to the power `k`.
pub open spec fn pow256(k: nat) -> nat
    decreases k,
{
    if k == 0 {
        1
    } else {
        256 * pow256((k - 1) as nat)
    }
}

/// The `k` low-order bytes of `n`, most significant first.
pub open spec fn be_bytes(n: nat, k: nat) -> Seq<u8>
    decreases k,
{
    if k == 0 {
        seq![]
    } else {
        be_bytes(n / 256, (k - 1) as nat).push((n % 256) as u8)
    }
}

/// The number that a big-endian byte string denotes.
pub open spec fn be_value(s: Seq<u8>) -> nat
    decreases s.len(),
{
    if s.len() == 0 {
        0
    } else {
        (be_value(s.drop_last()) * 256 + s.last()) as nat
    }
}

/// The additional information (low five bits) of the head for argument `n`.
pub open spec fn head_info(n: nat) -> nat {
    if n <= 23 {
        n
    } else if n <= 0xff {
        24
    } else if n <= 0xffff {
        25
    } else if n <= 0xffff_ffff {
        26
    } else {
        27
    }
}

/// How many argument bytes follow the first byte of a head, by its additional information.
pub open spec fn extra_for_info(info: nat) -> nat {
    if info <= 23 {
        0
    } else if info == 24 {
        1
    } else if info == 25 {
        2
    } else if info == 26 {
        4
    } else {
        8
    }
}

/// The head of a CBOR item of major type `major` with argument `n`.
pub open spec fn cbor_head(major: nat, n: nat) -> Seq<u8> {
    seq![(major * 32 + head_info(n)) as u8] + be_bytes(n, extra_for_info(head_info(n)))
}

/// The major type that the head at the start of `s` carries.
pub open spec fn head_major(s: Seq<u8>) -> nat {
    (s[0] / 32) as nat
}

/// The length of the head at the start of `s`.
pub open spec fn head_size(s: Seq<u8>) -> nat {
    1 + extra_for_info((s[0] % 32) as nat)
}

/// The argument of the head at the start of `s`.
pub open spec fn head_argument(s: Seq<u8>) -> nat {
    let info = (s[0] % 32) as nat;
    if info <= 23 {
        info
    } else {
        be_value(s.subrange(1, 1 + extra_for_info(info) as int))
    }
}

/// The bytes that a signature covers: the CBOR array of the path, the image
/// id and the timestamp.
pub open spec fn signing_payload(path: Seq<char>, image: Seq<u8>, timestamp: u64) -> Seq<u8> {
    let p = encode_utf8(path);
    cbor_head(4, 3) + cbor_head(3, p.len()) + p + cbor_head(2, image.len()) + image + cbor_head(
        0,
        timestamp as nat,
    )
}

/// Calls `serde_cbor::to_vec` on the tuple `(path, image as a byte string,
/// timestamp)`. Claimed: the result is exactly `signing_payload`, the
/// encoding that `serde_cbor::ser::Serializer` writes for a 3-tuple, a
/// `str`, bytes and a `u64` (each head in its shortest form).
#[verifier::external_body]
pub(crate) fn cbor_encode_signed_tuple(path: &str, image: &[u8], timestamp: u64) -> (res: Vec<u8>)
    ensures
        res@ == signing_payload(path@, image@, timestamp),
{
    let bytes = serde_cbor::Value::Bytes(image.to_vec());
    serde_cbor::to_vec(&(path, bytes, timestamp)).expect("Can always serialize signature data")
}

proof fn lemma_pow256_values()
    ensures
        pow256(0) == 1,
        pow256(1) == 0x100,
        pow256(2) == 0x1_0000,
        pow256(4) == 0x1_0000_0000,
        pow256(8) == 0x1_0000_0000_0000_0000,
{
    reveal_with_fuel(pow256, 9);
}

proof fn lemma_be_roundtrip(n: nat, k: nat)
    requires
        n < pow256(k),
    ensures
        be_bytes(n, k).len() == k,
        be_value(be_bytes(n, k)) == n,
    decreases k,
{
    if k > 0 {
        let p = pow256((k - 1) as nat);
        assert(n / 256 < p) by (nonlinear_arith)
            requires
                n < 256 * p,
        ;
        lemma_be_roundtrip(n / 256, (k - 1) as nat);
        let s = be_bytes(n, k);
        assert(s.drop_last() =~= be_bytes(n / 256, (k - 1) as nat));
        assert(n == (n / 256) * 256 + n % 256) by (nonlinear_arith);
    }
}

/// Reading the head back from the front of an encoding gives the major
/// type, the argument and the head's length.
pub proof fn lemma_head_decode(major: nat, n: nat, rest: Seq<u8>)
    requires
        major < 8,
        n <= u64::MAX,
    ensures
        ({
            let h = cbor_head(major, n);
            let s = h + rest;
            &&& head_major(s) == major
            &&& head_size(s) == h.len()
            &&& head_argument(s) == n
            &&& s.skip(h.len() as int) == rest
        }),
{
    lemma_pow256_values();
    let info = head_info(n);
    let k = extra_for_info(info);
    if k > 0 {
        assert(n < pow256(k));
        lemma_be_roundtrip(n, k);
    }
    let h = cbor_head(major, n);
    let s = h + rest;
    let b0 = (major * 32 + info) as u8;
    assert(s[0] == b0);
    assert(b0 / 32 == major && b0 % 32 == info) by (nonlinear_arith)
        requires
            b0 == major * 32 + info,
            info < 32,
    ;
    if k > 0 {
        assert(s.subrange(1, 1 + k as int) =~= be_bytes(n, k));
    }
    assert(s.skip(h.len() as int) =~= rest);
}

/// Two encodings that agree and start with heads of one major type carry
/// the same argument, and agree after the head.
pub proof fn lemma_head_cancel(major: nat, a: nat, x: Seq<u8>, b: nat, y: Seq<u8>)
    requires
        major < 8,
        a <= u64::MAX,
        b <= u64::MAX,
        cbor_head(major, a) + x == cbor_head(major, b) + y,
    ensures
        a == b,
        x == y,
{
    lemma_head_decode(major, a, x);
    lemma_head_decode(major, b, y);
}

proof fn lemma_prefix_cancel(p: Seq<u8>, x: Seq<u8>, q: Seq<u8>, y: Seq<u8>)
    requires
        p.len() == q.len(),
        p + x == q + y,
    ensures
        p == q,
        x == y,
{
    assert(p =~= (p + x).subrange(0, p.len() as int));
    assert(q =~= (q + y).subrange(0, q.len() as int));
    assert(x =~= (p + x).skip(p.len() as int));
    assert(y =~= (q + y).skip(q.len() as int));
}

/// The signing payload with its parts grouped from the right.
spec fn payload_nested(p: Seq<u8>, image: Seq<u8>, timestamp: u64) -> Seq<u8> {
    cbor_head(4, 3) + (cbor_head(3, p.len()) + (p + (cbor_head(2, image.len()) + (image
        + cbor_head(0, timestamp as nat)))))
}

proof fn lemma_payload_nested(path: Seq<char>, image: Seq<u8>, timestamp: u64)
    ensures
        signing_payload(path, image, timestamp) == payload_nested(
            encode_utf8(path),
            image,
            timestamp,
        ),
{
    let p = encode_utf8(path);
    let h0 = cbor_head(4, 3);
    let h1 = cbor_head(3, p.len());
    let h2 = cbor_head(2, image.len());
    let h3 = cbor_head(0, timestamp as nat);
    assert(h0 + h1 + p + h2 + image + h3 =~= h0 + (h1 + (p + (h2 + (image + h3)))));
}

/// The signing payload determines the path, the image id and the timestamp:
/// a signature made for one of them is never one for another.
pub proof fn lemma_signing_payload_injective(
    path1: Seq<char>,
    image1: Seq<u8>,
    timestamp1: u64,
    path2: Seq<char>,
    image2: Seq<u8>,
    timestamp2: u64,
)
    requires
        encode_utf8(path1).len() <= u64::MAX,
        encode_utf8(path2).len() <= u64::MAX,
        image1.len() <= u64::MAX,
        image2.len() <= u64::MAX,
        signing_payload(path1, image1, timestamp1) == signing_payload(path2, image2, timestamp2),
    ensures
        path1 == path2,
        image1 == image2,
        timestamp1 == timestamp2,
{
    let p1 = encode_utf8(path1);
    let p2 = encode_utf8(path2);
    lemma_payload_nested(path1, image1, timestamp1);
    lemma_payload_nested(path2, image2, timestamp2);
    let t1 = cbor_head(0, timestamp1 as nat);
    let t2 = cbor_head(0, timestamp2 as nat);
    let i1 = image1 + t1;
    let i2 = image2 + t2;
    let g1 = cbor_head(2, image1.len()) + i1;
    let g2 = cbor_head(2, image2.len()) + i2;
    let f1 = p1 + g1;
    let f2 = p2 + g2;
    let e1 = cbor_head(3, p1.len()) + f1;
    let e2 = cbor_head(3, p2.len()) + f2;
    lemma_head_cancel(4, 3, e1, 3, e2);
    lemma_head_cancel(3, p1.len(), f1, p2.len(), f2);
    lemma_prefix_cancel(p1, g1, p2, g2);
    encode_utf8_decode_utf8(path1);
    encode_utf8_decode_utf8(path2);
    lemma_head_cancel(2, image1.len(), i1, image2.len(), i2);
    lemma_prefix_cancel(image1, t1, image2, t2);
    assert(t1 + seq![] =~= t1);
    assert(t2 + seq![] =~= t2);
    lemma_head_cancel(0, timestamp1 as nat, seq![], timestamp2 as nat, seq![]);
}

} // verus!
