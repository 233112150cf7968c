use ciruela::keys::{PrivateKey, PublicKey};
use ciruela::signature::{ed25519_bytes, compare_bytes};
use ciruela::{sign, verify, Bytes, SigData, Signature, SignatureError, SignatureType};
use std::cmp::Ordering;

fn keypair(seed_byte: u8) -> ([u8; 64], [u8; 32]) {
    crypto::ed25519::keypair(&[seed_byte; 32])
}

#[test]
fn signing_payload_is_cbor_of_path_image_timestamp() {
    let data = SigData { path: "/dir", image: &[1, 2, 3], timestamp: 1000 };
    let payload = data.signing_payload();
    assert_eq!(
        payload,
        vec![0x83, 0x64, b'/', b'd', b'i', b'r', 0x43, 1, 2, 3, 0x19, 0x03, 0xe8]
    );
}

#[test]
fn signing_payload_uses_long_heads() {
    let image = vec![7u8; 300];
    let data = SigData { path: "/x", image: &image, timestamp: 0x1_0000_0000 };
    let payload = data.signing_payload();
    let mut expected = vec![0x83, 0x62, b'/', b'x', 0x59, 0x01, 0x2c];
    expected.extend_from_slice(&image);
    expected.extend_from_slice(&[0x1b, 0, 0, 0, 1, 0, 0, 0, 0]);
    assert_eq!(payload, expected);
}

#[test]
fn signing_payload_differs_when_any_part_differs() {
    let a = SigData { path: "/a", image: &[1], timestamp: 5 }.signing_payload();
    let b = SigData { path: "/b", image: &[1], timestamp: 5 }.signing_payload();
    let c = SigData { path: "/a", image: &[2], timestamp: 5 }.signing_payload();
    let d = SigData { path: "/a", image: &[1], timestamp: 6 }.signing_payload();
    assert_ne!(a, b);
    assert_ne!(a, c);
    assert_ne!(a, d);
}

#[test]
fn sign_then_verify_accepts_with_matching_key() {
    let (secret, public) = keypair(1);
    let data = SigData { path: "/images/app", image: &[9, 9, 9, 9], timestamp: 1500000000000 };
    let sigs = sign(SigData { ..data }, &[PrivateKey::Ed25519(secret)]);
    assert_eq!(sigs.len(), 1);
    let data = SigData { path: "/images/app", image: &[9, 9, 9, 9], timestamp: 1500000000000 };
    assert!(verify(&data, &sigs[0], &[PublicKey::Ed25519(public)]));
}

#[test]
fn sign_makes_one_signature_per_key_in_order() {
    let (s1, p1) = keypair(1);
    let (s2, p2) = keypair(2);
    let data = SigData { path: "/p", image: &[1, 2], timestamp: 7 };
    let sigs = sign(data, &[PrivateKey::Ed25519(s1), PrivateKey::Ed25519(s2)]);
    assert_eq!(sigs.len(), 2);
    let data = SigData { path: "/p", image: &[1, 2], timestamp: 7 };
    assert!(verify(&data, &sigs[0], &[PublicKey::Ed25519(p1)]));
    assert!(!verify(&data, &sigs[0], &[PublicKey::Ed25519(p2)]));
    assert!(verify(&data, &sigs[1], &[PublicKey::Ed25519(p2)]));
    assert!(verify(&data, &sigs[1], &[PublicKey::Ed25519(p1), PublicKey::Ed25519(p2)]));
}

#[test]
fn sign_with_no_keys_gives_nothing() {
    let data = SigData { path: "/p", image: &[1], timestamp: 1 };
    assert!(sign(data, &[]).is_empty());
}

#[test]
fn signature_is_the_ed25519_signature_of_the_payload() {
    let (secret, _) = keypair(3);
    let data = SigData { path: "/q", image: &[4, 5], timestamp: 42 };
    let payload = data.signing_payload();
    let sigs = sign(data, &[PrivateKey::Ed25519(secret)]);
    let expected = crypto::ed25519::signature(&payload, &secret);
    assert_eq!(&sigs[0].bytes()[..], &expected[..]);
}

#[test]
fn verify_rejects_other_data() {
    let (secret, public) = keypair(4);
    let data = SigData { path: "/a", image: &[1, 2, 3], timestamp: 10 };
    let sigs = sign(data, &[PrivateKey::Ed25519(secret)]);
    let keys = [PublicKey::Ed25519(public)];
    assert!(!verify(&SigData { path: "/b", image: &[1, 2, 3], timestamp: 10 }, &sigs[0], &keys));
    assert!(!verify(&SigData { path: "/a", image: &[1, 2, 4], timestamp: 10 }, &sigs[0], &keys));
    assert!(!verify(&SigData { path: "/a", image: &[1, 2, 3], timestamp: 11 }, &sigs[0], &keys));
}

#[test]
fn verify_with_no_keys_or_rsa_keys_is_false() {
    let (secret, _) = keypair(5);
    let data = SigData { path: "/a", image: &[1], timestamp: 1 };
    let sigs = sign(data, &[PrivateKey::Ed25519(secret)]);
    let data = SigData { path: "/a", image: &[1], timestamp: 1 };
    assert!(!verify(&data, &sigs[0], &[]));
    let rsa = PublicKey::Rsa { exponent: vec![1, 0, 1], modulus: vec![0xff; 8] };
    assert!(!verify(&data, &sigs[0], &[rsa]));
}

#[test]
fn text_forms_use_base64() {
    let sig = Signature::SshEd25519([0u8; 64]);
    let b64 = "A".repeat(86) + "==";
    assert_eq!(sig.to_text(), format!("ssh-ed25519 {}", b64));
    assert_eq!(sig.debug_text(), format!("SshEd25519({})", b64));
    let mut bytes = [0u8; 64];
    bytes[0] = 0xff;
    let sig = Signature::SshEd25519(bytes);
    assert!(sig.to_text().starts_with("ssh-ed25519 /w"));
    assert_eq!(sig.kind_name(), "ssh-ed25519");
    assert_eq!(sig.signature_type(), SignatureType::SshEd25519);
}

#[test]
fn type_names_are_read() {
    assert_eq!(SignatureType::from_name("ssh-ed25519"), Ok(SignatureType::SshEd25519));
    assert_eq!(SignatureType::from_name("ssh-rsa"), Err(SignatureError::UnknownType));
    assert_eq!(SignatureType::from_name(""), Err(SignatureError::UnknownType));
    assert_eq!(SignatureType::from_name("ssh-ed25519 "), Err(SignatureError::UnknownType));
}

#[test]
fn signature_bytes_must_be_64_long() {
    let v: Vec<u8> = (0..64).collect();
    let arr = ed25519_bytes(&v).unwrap();
    assert_eq!(&arr[..], &v[..]);
    assert_eq!(ed25519_bytes(&v[..63]), Err(SignatureError::InvalidLength));
    assert_eq!(ed25519_bytes(&[0u8; 65]), Err(SignatureError::InvalidLength));
    assert_eq!(ed25519_bytes(&[]), Err(SignatureError::InvalidLength));
}

#[test]
fn signature_is_rebuilt_from_elements() {
    let bytes = [3u8; 64];
    let sig = Signature::from_elements(Some(SignatureType::SshEd25519), Some(bytes)).unwrap();
    assert_eq!(sig, Signature::SshEd25519(bytes));
    assert_eq!(
        Signature::from_elements(Some(SignatureType::SshEd25519), None),
        Err(SignatureError::InvalidLength)
    );
    assert_eq!(Signature::from_elements(None, Some(bytes)), Err(SignatureError::MissingType));
    assert_eq!(Signature::from_elements(None, None), Err(SignatureError::MissingType));
}

#[test]
fn rebuilding_from_own_parts_gives_the_same_signature() {
    let (secret, _) = keypair(6);
    let data = SigData { path: "/r", image: &[1], timestamp: 2 };
    let sig = sign(data, &[PrivateKey::Ed25519(secret)]).remove(0);
    let kind = SignatureType::from_name(sig.kind_name()).unwrap();
    let bytes = ed25519_bytes(&sig.bytes()[..]).unwrap();
    assert_eq!(Signature::from_elements(Some(kind), Some(bytes)).unwrap(), sig);
}

#[test]
fn signatures_compare_by_bytes() {
    let mut a = [0u8; 64];
    let mut b = [0u8; 64];
    a[10] = 1;
    b[10] = 2;
    let sa = Signature::SshEd25519(a);
    let sb = Signature::SshEd25519(b);
    assert!(sa == sa.clone());
    assert!(sa != sb);
    assert_eq!(sa.partial_cmp(&sb), Some(Ordering::Less));
    assert_eq!(sb.partial_cmp(&sa), Some(Ordering::Greater));
    assert_eq!(sa.partial_cmp(&sa), Some(Ordering::Equal));
    assert_eq!(sa.cmp(&sb), Ordering::Less);
    assert!(sa < sb);
    let mut c = [0u8; 64];
    c[0] = 1;
    assert!(Signature::SshEd25519(c) > sb);
    assert_eq!(compare_bytes(&a, &b), -1);
    assert_eq!(compare_bytes(&b, &a), 1);
    assert_eq!(compare_bytes(&a, &a), 0);
}

#[test]
fn bytes_wrapper_gives_its_slice() {
    let data = [1u8, 2, 3];
    assert_eq!(Bytes(&data).as_slice(), &data[..]);
}

#[test]
fn payload_matches_serde_cbor_of_the_tuple() {
    let data = SigData { path: "/päth", image: &[0xde, 0xad], timestamp: 300 };
    let expected = serde_cbor::to_vec(&(
        "/päth",
        serde_cbor::Value::Bytes(vec![0xde, 0xad]),
        300u64,
    ))
    .unwrap();
    assert_eq!(data.signing_payload(), expected);
}

#[test]
fn text_form_encodes_every_byte_value() {
    let mut bytes = [0u8; 64];
    for (i, b) in bytes.iter_mut().enumerate() {
        *b = (i as u8).wrapping_mul(37).wrapping_add(250);
    }
    let sig = Signature::SshEd25519(bytes);
    assert_eq!(sig.to_text(), format!("ssh-ed25519 {}", base64::encode(&bytes[..])));
    let mut first = [0u8; 64];
    first[0] = 0xfa;
    first[1] = 0xfb;
    first[2] = 0xfc;
    assert!(Signature::SshEd25519(first).to_text().starts_with("ssh-ed25519 +vv8"));
}
