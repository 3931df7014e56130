use homo::bigint::UBig;
use homo::io::{
    frame_pem, pack_ckks_ct, pack_paillier_ct, pack_paillier_pk, unframe_pem, unpack_paillier_ct,
    unpack_paillier_pk, unpack_paillier_sk, Envelope, Kind,
};
use homo::schemes::{paillier, Scheme};
use num_bigint::BigUint;
use serde_json::Value;

/// The payload of a Paillier public key or ciphertext: the bincode form of
/// its one big-integer field.
fn biguint_payload(x: &UBig) -> Vec<u8> {
    bincode::serialize(&BigUint::from_slice(&x.to_digits())).unwrap()
}

fn ubig_from_payload(bytes: &[u8]) -> UBig {
    let b: BigUint = bincode::deserialize(bytes).unwrap();
    UBig::from_u32_digits(b.to_u32_digits())
}

fn scheme_name(s: Scheme) -> &'static str {
    match s {
        Scheme::Paillier => "Paillier",
        Scheme::Bfv => "Bfv",
        Scheme::Bgn => "Bgn",
        Scheme::Ckks => "Ckks",
    }
}

fn envelope_json(env: &Envelope) -> String {
    let mut m = serde_json::Map::new();
    m.insert("version".to_string(), Value::from(env.version));
    m.insert("scheme".to_string(), Value::from(scheme_name(env.scheme)));
    m.insert("kind".to_string(), Value::from(env.kind.name()));
    m.insert("data".to_string(), Value::from(env.data.clone()));
    m.insert("fingerprint".to_string(), Value::from(env.fingerprint.clone()));
    serde_json::to_string(&Value::Object(m)).unwrap()
}

fn envelope_from_json(text: &str) -> Envelope {
    let v: Value = serde_json::from_str(text).unwrap();
    let scheme = Scheme::parse(v["scheme"].as_str().unwrap()).unwrap();
    let kind = match v["kind"].as_str().unwrap() {
        "PublicKey" => Kind::PublicKey,
        "SecretKey" => Kind::SecretKey,
        "Ciphertext" => Kind::Ciphertext,
        _ => Kind::Circuit,
    };
    Envelope {
        version: v["version"].as_u64().unwrap() as u32,
        scheme,
        kind,
        data: v["data"].as_str().unwrap().to_string(),
        fingerprint: v["fingerprint"].as_str().unwrap().to_string(),
    }
}

fn to_pem(env: &Envelope) -> String {
    frame_pem(env.scheme, env.kind, &envelope_json(env))
}

fn from_pem(pem: &str) -> Result<Envelope, String> {
    let bytes = unframe_pem(pem)?;
    let json = String::from_utf8(bytes).map_err(|e| e.to_string())?;
    Ok(envelope_from_json(&json))
}

#[test]
fn paillier_envelope_roundtrip() {
    let (pk, _sk) = paillier::keygen(64).unwrap();
    let env = pack_paillier_pk(&biguint_payload(&pk.n));
    let pem = to_pem(&env);
    let back = from_pem(&pem).unwrap();
    let pk2 = ubig_from_payload(&unpack_paillier_pk(&back).unwrap());
    assert_eq!(pk.n, pk2);
}

#[test]
fn envelope_self_describing() {
    let (pk, _sk) = paillier::keygen(64).unwrap();
    let pem = to_pem(&pack_paillier_pk(&biguint_payload(&pk.n)));
    assert!(pem.starts_with("-----BEGIN HOMO PAILLIER PUBLIC KEY-----"));
    assert!(pem.contains("END HOMO PAILLIER PUBLIC KEY"));
}

#[test]
fn paillier_full_pipeline() {
    let (pk, sk) = paillier::keygen(128).unwrap();
    let m_a = UBig::from_u64(123);
    let m_b = UBig::from_u64(456);

    let ct_a = paillier::encrypt(&pk, &m_a);
    let ct_b = paillier::encrypt(&pk, &m_b);

    // Round-trip via PEM
    let env = pack_paillier_ct(&biguint_payload(&ct_a.c));
    let pem = to_pem(&env);
    let env2 = from_pem(&pem).unwrap();
    let ct_a_back = paillier::Ciphertext { c: ubig_from_payload(&unpack_paillier_ct(&env2).unwrap()) };
    assert_eq!(paillier::decrypt(&sk, &ct_a_back), m_a);

    // Homomorphic addition
    let sum = paillier::add(&pk, &ct_a_back, &ct_b);
    assert_eq!(paillier::decrypt(&sk, &sum), m_a.add(&m_b));
}

#[test]
fn pack_records_scheme_kind_and_fingerprint() {
    let env = pack_ckks_ct(b"hello");
    assert_eq!(env.version, 1);
    assert_eq!(env.scheme, Scheme::Ckks);
    assert_eq!(env.kind, Kind::Ciphertext);
    assert_eq!(env.data, "aGVsbG8=");
    // SHA-256("hello") = 2cf24dba...
    assert_eq!(env.fingerprint, "2cf24dba");
}

#[test]
fn unpack_checks_the_kind() {
    let env = pack_paillier_pk(&[1, 2, 3]);
    assert_eq!(unpack_paillier_pk(&env).unwrap(), vec![1, 2, 3]);
    assert_eq!(
        unpack_paillier_sk(&env).unwrap_err(),
        "expected SecretKey, got PublicKey"
    );
}

#[test]
fn unpack_reports_bad_base64() {
    let mut env = pack_paillier_pk(&[1, 2, 3]);
    env.data = "not base64!".to_string();
    assert!(unpack_paillier_pk(&env).is_err());
}

#[test]
fn frame_wraps_long_bodies_at_64_columns() {
    let json = "x".repeat(100);
    let pem = frame_pem(Scheme::Bfv, Kind::Circuit, &json);
    let lines: Vec<&str> = pem.lines().collect();
    assert_eq!(lines[0], "-----BEGIN HOMO BFV CIRCUIT-----");
    assert_eq!(lines[1].len(), 64);
    assert_eq!(lines[3].len(), 8);
    assert_eq!(lines[4], "-----END HOMO BFV CIRCUIT-----");
    assert_eq!(unframe_pem(&pem).unwrap(), json.as_bytes());
}

#[test]
fn unframe_reports_empty_and_bad_headers() {
    assert_eq!(unframe_pem("\n\n").unwrap_err(), "empty input");
    assert_eq!(unframe_pem("hello\nworld\n").unwrap_err(), "bad header: hello");
}

#[test]
fn unframe_accepts_crlf_and_blank_lines() {
    let pem = "\r\n-----BEGIN HOMO BGN SECRET KEY-----\r\naGVs\r\n\r\nbG8=\r\n-----END HOMO BGN SECRET KEY-----\r\n";
    assert_eq!(unframe_pem(pem).unwrap(), b"hello");
}

#[test]
fn payload_text_is_padded_standard_base64() {
    assert_eq!(pack_ckks_ct(b"M").data, "TQ==");
    assert_eq!(pack_ckks_ct(b"Ma").data, "TWE=");
    assert_eq!(pack_ckks_ct(b"Man").data, "TWFu");
    assert_eq!(pack_ckks_ct(&[0xfb, 0xff]).data, "+/8=");
    assert_eq!(pack_ckks_ct(b"").data, "");
}

#[test]
fn only_canonical_base64_decodes() {
    let mut env = pack_paillier_pk(b"M");
    assert_eq!(unpack_paillier_pk(&env), Ok(b"M".to_vec()));
    env.data = "TQ".to_string(); // padding missing
    assert!(unpack_paillier_pk(&env).is_err());
    env.data = "TR==".to_string(); // trailing bits set
    assert!(unpack_paillier_pk(&env).is_err());
}
