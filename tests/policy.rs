use enprot::params::PbkdfParams;
use enprot::policy::{CryptoPolicy, CryptoPolicyNIST, CryptoPolicyNone};

fn iterations(n: usize) -> PbkdfParams {
    let mut p = PbkdfParams::new();
    p.insert("i".to_string(), n);
    p
}

#[test]
fn none_policy_accepts_everything() {
    let p = CryptoPolicyNone::new();
    assert_eq!(p.check_hash("md5"), Ok(()));
    assert_eq!(p.check_pbkdf("legacy", 1, "pw", &[], &iterations(1)), Ok(()));
    assert_eq!(p.check_cipher("rot13", &[], &[1, 2, 3], &[]), Ok(()));
}

#[test]
fn none_policy_defaults() {
    let p = CryptoPolicyNone::new();
    assert_eq!(p.default_pbkdf_alg(), "argon2");
    assert_eq!(p.default_pbkdf_salt_length(), 16);
    assert_eq!(p.default_pbkdf_millis(), 100);
    assert_eq!(p.default_cipher_alg(), "aes-256-siv");
}

#[test]
fn nist_policy_defaults() {
    let p = CryptoPolicyNIST::new();
    assert_eq!(p.default_pbkdf_alg(), "pbkdf2-sha512");
    assert_eq!(p.default_pbkdf_salt_length(), 32);
    assert_eq!(p.default_pbkdf_millis(), 100);
    assert_eq!(p.default_cipher_alg(), "aes-256-gcm");
}

#[test]
fn nist_refuses_unapproved_pbkdf() {
    let p = CryptoPolicyNIST::new();
    let salt = [7u8; 16];
    for alg in ["legacy", "argon2", "scrypt", "pbkdf2-sha3-256"] {
        assert_eq!(
            p.check_pbkdf(alg, 32, "password", &salt, &iterations(5000)),
            Err("Algorithm not permitted by policy")
        );
    }
}

#[test]
fn nist_accepts_pbkdf2() {
    let p = CryptoPolicyNIST::new();
    let salt = [7u8; 16];
    assert_eq!(p.check_pbkdf("pbkdf2-sha256", 32, "password", &salt, &iterations(1000)), Ok(()));
    assert_eq!(p.check_pbkdf("pbkdf2-sha512", 14, "password", &salt, &PbkdfParams::new()), Ok(()));
}

#[test]
fn nist_iteration_count() {
    let p = CryptoPolicyNIST::new();
    let salt = [7u8; 32];
    assert_eq!(
        p.check_pbkdf("pbkdf2-sha256", 32, "password", &salt, &iterations(999)),
        Err("Iteration count violates policy")
    );
    assert_eq!(p.check_pbkdf("pbkdf2-sha256", 32, "password", &salt, &iterations(1000)), Ok(()));
}

#[test]
fn nist_salt_and_key_length() {
    let p = CryptoPolicyNIST::new();
    assert_eq!(
        p.check_pbkdf("pbkdf2-sha256", 32, "password", &[0u8; 15], &iterations(1000)),
        Err("Salt length violates policy")
    );
    assert_eq!(
        p.check_pbkdf("pbkdf2-sha256", 13, "password", &[0u8; 16], &iterations(1000)),
        Err("Key length violates policy")
    );
    // the salt is checked before the key length, and both before the iterations
    assert_eq!(
        p.check_pbkdf("pbkdf2-sha256", 13, "password", &[0u8; 15], &iterations(1)),
        Err("Salt length violates policy")
    );
}

#[test]
fn nist_cipher_rules() {
    let p = CryptoPolicyNIST::new();
    let iv16: Vec<u8> = (1..=16).collect();
    let iv12: Vec<u8> = (1..=12).collect();
    assert_eq!(
        p.check_cipher("aes-256-gcm", &[], &iv16, &[]),
        Err("IV length does not match NIST recommendations for this cipher.")
    );
    assert_eq!(p.check_cipher("aes-256-gcm", &[], &iv12, &[]), Ok(()));
    assert_eq!(
        p.check_cipher("aes-256-siv", &[], &iv12, &[]),
        Err("Algorithm not permitted by policy")
    );
    assert_eq!(
        p.check_cipher("aes-256-gcm-siv", &[], &iv12, &[]),
        Err("Algorithm not permitted by policy")
    );
}

#[test]
fn nist_hash_rules() {
    let p = CryptoPolicyNIST::new();
    assert_eq!(p.check_hash("sha3-256"), Ok(()));
    assert_eq!(p.check_hash("sha3-512"), Ok(()));
    assert_eq!(p.check_hash("sha256"), Err("Algorithm not permitted by policy"));
    assert_eq!(p.check_hash("SHA3-256"), Err("Algorithm not permitted by policy"));
}
