use enprot::crypto::{
    param_order, to_botan_cipher,
    accept_tuned_params, derive_key_inputs, hash_name_for, hex_of_digest, timed_params,
    to_botan_hash, to_botan_pbkdf, CryptoPolicyDefault, CryptoPolicyNIST,
};
use enprot::params::PbkdfParams;

const PBKDF2_ORDER: [&[&str; 3]; 2] = [&["i", "", ""], &["i", "", ""]];
const ARGON2_ORDER: [&[&str; 3]; 2] = [&["m", "t", "p"], &["m", "t", "p"]];

fn params(entries: &[(&str, usize)]) -> PbkdfParams {
    let mut p = PbkdfParams::new();
    for (k, v) in entries {
        p.insert(k.to_string(), *v);
    }
    p
}

#[test]
fn botan_hash_names() {
    assert_eq!(to_botan_hash("sha256"), Ok("SHA-256"));
    assert_eq!(to_botan_hash("sha512"), Ok("SHA-512"));
    assert_eq!(to_botan_hash("sha3-256"), Ok("SHA-3(256)"));
    assert_eq!(to_botan_hash("sha3-512"), Ok("SHA-3(512)"));
    assert_eq!(to_botan_hash("md5"), Err("Unrecognized hash algorithm"));
    assert_eq!(to_botan_hash(""), Err("Unrecognized hash algorithm"));
}

#[test]
fn botan_pbkdf_names() {
    assert_eq!(to_botan_pbkdf("pbkdf2-sha256"), Ok("PBKDF2(SHA-256)".to_string()));
    assert_eq!(to_botan_pbkdf("pbkdf2-sha512"), Ok("PBKDF2(SHA-512)".to_string()));
    assert_eq!(to_botan_pbkdf("pbkdf2-sha3-512"), Ok("PBKDF2(SHA-3(512))".to_string()));
    assert_eq!(to_botan_pbkdf("argon2"), Ok("Argon2id".to_string()));
    assert_eq!(to_botan_pbkdf("scrypt"), Ok("Scrypt".to_string()));
    assert_eq!(to_botan_pbkdf("pbkdf2-md5"), Err("Unrecognized hash algorithm"));
    assert_eq!(to_botan_pbkdf("legacy"), Ok("PBKDF2(SHA-256)".to_string()));
    assert_eq!(to_botan_pbkdf("bcrypt"), Err("Invalid KDF"));
    assert_eq!(to_botan_pbkdf("pbkdf2"), Err("Invalid KDF"));
}

#[test]
fn hash_names_under_policies() {
    let none = CryptoPolicyDefault::new();
    let nist = CryptoPolicyNIST::new();
    assert_eq!(hash_name_for("sha256", &none), Ok("SHA-256"));
    assert_eq!(hash_name_for("md5", &none), Err("Unrecognized hash algorithm"));
    assert_eq!(hash_name_for("sha256", &nist), Err("Algorithm not permitted by policy"));
    assert_eq!(hash_name_for("sha3-512", &nist), Ok("SHA-3(512)"));
}

#[test]
fn hex_digest_text() {
    assert_eq!(hex_of_digest(&[0x01, 0xab, 0xff, 0x00, 0x9c]), "01abff009c");
    assert_eq!(hex_of_digest(&[]), "");
}

#[test]
fn derive_inputs_pbkdf2() {
    let none = CryptoPolicyDefault::new();
    let r = derive_key_inputs("pbkdf2-sha256", &PBKDF2_ORDER, 32, "password", &[1, 2, 3], params(&[("i", 1)]), &none);
    assert_eq!(r, Ok(("PBKDF2(SHA-256)".to_string(), [1, 0, 0])));
}

#[test]
fn derive_inputs_argon2_slots() {
    let none = CryptoPolicyDefault::new();
    let p = params(&[("p", 4), ("m", 65536), ("t", 3)]);
    let r = derive_key_inputs("argon2", &ARGON2_ORDER, 32, "password", &[0; 16], p, &none);
    assert_eq!(r, Ok(("Argon2id".to_string(), [65536, 3, 4])));
}

#[test]
fn derive_inputs_missing_and_extraneous() {
    let none = CryptoPolicyDefault::new();
    let r = derive_key_inputs("argon2", &ARGON2_ORDER, 32, "pw", &[0; 16], params(&[("m", 8), ("t", 1)]), &none);
    assert_eq!(r, Err("Missing PBKDF parameter"));
    let r = derive_key_inputs("pbkdf2-sha256", &PBKDF2_ORDER, 32, "pw", &[0; 16], params(&[("i", 8), ("x", 1)]), &none);
    assert_eq!(r, Err("Extraneous PBKDF parameters"));
    let dup: [&[&str; 3]; 2] = [&["i", "", ""], &["i", "i", ""]];
    let r = derive_key_inputs("pbkdf2-sha256", &dup, 32, "pw", &[0; 16], params(&[("i", 8)]), &none);
    assert_eq!(r, Err("Missing PBKDF parameter"));
}

#[test]
fn derive_inputs_checked_by_policy_first() {
    let nist = CryptoPolicyNIST::new();
    let r = derive_key_inputs("argon2", &ARGON2_ORDER, 32, "pw", &[0; 16], PbkdfParams::new(), &nist);
    assert_eq!(r, Err("Algorithm not permitted by policy"));
    let r = derive_key_inputs("pbkdf2-sha512", &PBKDF2_ORDER, 32, "pw", &[0; 16], params(&[("i", 999)]), &nist);
    assert_eq!(r, Err("Iteration count violates policy"));
    let r = derive_key_inputs("pbkdf2-sha512", &PBKDF2_ORDER, 32, "pw", &[0; 16], params(&[("i", 1000)]), &nist);
    assert_eq!(r, Ok(("PBKDF2(SHA-512)".to_string(), [1000, 0, 0])));
}

#[test]
fn derive_inputs_unknown_kdf() {
    let none = CryptoPolicyDefault::new();
    let r = derive_key_inputs("bcrypt", &PBKDF2_ORDER, 32, "pw", &[0; 16], params(&[("i", 1)]), &none);
    assert_eq!(r, Err("Invalid KDF"));
    let r = derive_key_inputs("legacy", &PBKDF2_ORDER, 32, "pw", &[0; 16], params(&[("i", 1)]), &none);
    assert_eq!(r, Ok(("PBKDF2(SHA-256)".to_string(), [1, 0, 0])));
}

#[test]
fn tuned_params_named_in_order() {
    let p = timed_params(&["", "i", ""], [250000, 7, 9]);
    assert_eq!(p.get("i"), Some(250000));
    let mut q = timed_params(&["", "i", ""], [250000, 7, 9]);
    assert_eq!(q.remove("i"), Some(250000));
    assert!(q.is_empty());
    let p = timed_params(&["m", "t", "p"], [1, 2, 3]);
    assert_eq!((p.get("m"), p.get("t"), p.get("p")), (Some(1), Some(2), Some(3)));
}

#[test]
fn tuned_params_under_policy() {
    let nist = CryptoPolicyNIST::new();
    let r = accept_tuned_params("pbkdf2-sha256", &PBKDF2_ORDER, 32, "pw", &[0; 16], [500, 0, 0], &nist);
    assert_eq!(r.unwrap_err(), "Iteration count violates policy");
    let r = accept_tuned_params("pbkdf2-sha256", &PBKDF2_ORDER, 32, "pw", &[0; 16], [5000, 0, 0], &nist);
    assert_eq!(r.unwrap().get("i"), Some(5000));
}

#[test]
fn tuned_params_derive_again() {
    let none = CryptoPolicyDefault::new();
    let tuned = timed_params(ARGON2_ORDER[0], [65536, 3, 1]);
    let r = derive_key_inputs("argon2", &ARGON2_ORDER, 32, "pw", &[0; 16], tuned, &none);
    assert_eq!(r, Ok(("Argon2id".to_string(), [65536, 3, 1])));
    let tuned = timed_params(PBKDF2_ORDER[0], [150000, 0, 0]);
    let r = derive_key_inputs("pbkdf2-sha512", &PBKDF2_ORDER, 32, "pw", &[0; 16], tuned, &none);
    assert_eq!(r, Ok(("PBKDF2(SHA-512)".to_string(), [150000, 0, 0])));
}

#[test]
fn parameter_orders_and_ciphers() {
    assert_eq!(param_order("argon2"), Some(["m", "t", "p"]));
    assert_eq!(param_order("scrypt"), Some(["N", "r", "p"]));
    assert_eq!(param_order("pbkdf2-sha512"), Some(["i", "", ""]));
    assert_eq!(param_order("legacy"), Some(["i", "", ""]));
    assert_eq!(param_order("bcrypt"), None);
    assert_eq!(to_botan_cipher("aes-256-gcm"), Ok("AES-256/GCM"));
    assert_eq!(to_botan_cipher("aes-256-siv"), Ok("AES-256/SIV"));
    assert_eq!(to_botan_cipher("aes-256-gcm-siv"), Ok("AES-256/GCM-SIV"));
    assert_eq!(to_botan_cipher("des"), Err("Unrecognized cipher algorithm"));
}
