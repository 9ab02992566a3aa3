//! Cryptographic policies: which algorithms and parameters are accepted,
//! and which are chosen when the caller names none.
use vstd::prelude::*;
use crate::params::PbkdfParams;
use crate::text::str_eq;

verus! {

/// Shortest salt that the NIST policy accepts, in bytes.
pub const NIST_PBKDF_MIN_SALT_LEN: usize = 16;

/// Shortest derived key that the NIST policy accepts, in bytes.
pub const NIST_PBKDF_MIN_KEY_LEN: usize = 14;

/// Fewest iterations that the NIST policy accepts.
pub const NIST_PBKDF_MIN_ITERATIONS: usize = 1000;

/// The IV length that NIST recommends for AES-GCM, in bytes.
pub const NIST_GCM_IV_LEN: usize = 12;

/// A set of rules on algorithm choices and parameters, with defaults.
pub trait CryptoPolicy {
    /// Whether hashing with `alg` is accepted, or why not.
    spec fn hash_verdict(&self, alg: Seq<char>) -> Result<(), &'static str>;

    /// Whether deriving a key of `key_len` bytes with `alg`, `salt` and
    /// `params` is accepted, or why not.
    spec fn pbkdf_verdict(
        &self,
        alg: Seq<char>,
        key_len: usize,
        salt: Seq<u8>,
        params: Map<Seq<char>, usize>,
    ) -> Result<(), &'static str>;

    /// Whether encrypting with `alg` under `key`, `iv` and `ad` is
    /// accepted, or why not.
    spec fn cipher_verdict(&self, alg: Seq<char>, key: Seq<u8>, iv: Seq<u8>, ad: Seq<u8>) -> Result<
        (),
        &'static str,
    >;

    spec fn spec_default_pbkdf_alg(&self) -> Seq<char>;

    spec fn spec_default_pbkdf_salt_length(&self) -> usize;

    spec fn spec_default_pbkdf_millis(&self) -> u32;

    spec fn spec_default_cipher_alg(&self) -> Seq<char>;

    fn check_hash(&self, alg: &str) -> (r: Result<(), &'static str>)
        ensures
            r == self.hash_verdict(alg@),
    ;

    fn check_pbkdf(
        &self,
        alg: &str,
        key_len: usize,
        password: &str,
        salt: &[u8],
        params: &PbkdfParams,
    ) -> (r: Result<(), &'static str>)
        ensures
            r == self.pbkdf_verdict(alg@, key_len, salt@, params@),
    ;

    fn check_cipher(&self, alg: &str, key: &[u8], iv: &[u8], ad: &[u8]) -> (r: Result<
        (),
        &'static str,
    >)
        ensures
            r == self.cipher_verdict(alg@, key@, iv@, ad@),
    ;

    fn default_pbkdf_alg(&self) -> (r: String)
        ensures
            r@ == self.spec_default_pbkdf_alg(),
    ;

    fn default_pbkdf_salt_length(&self) -> (r: usize)
        ensures
            r == self.spec_default_pbkdf_salt_length(),
    ;

    fn default_pbkdf_millis(&self) -> (r: u32)
        ensures
            r == self.spec_default_pbkdf_millis(),
    ;

    fn default_cipher_alg(&self) -> (r: String)
        ensures
            r@ == self.spec_default_cipher_alg(),
    ;
}

/// The permissive policy: every check passes.
pub struct CryptoPolicyNone {}

impl CryptoPolicyNone {
    pub fn new() -> (r: CryptoPolicyNone) {
        CryptoPolicyNone {  }
    }
}

impl CryptoPolicy for CryptoPolicyNone {
    open spec fn hash_verdict(&self, alg: Seq<char>) -> Result<(), &'static str> {
        Ok(())
    }

    open spec fn pbkdf_verdict(
        &self,
        alg: Seq<char>,
        key_len: usize,
        salt: Seq<u8>,
        params: Map<Seq<char>, usize>,
    ) -> Result<(), &'static str> {
        Ok(())
    }

    open spec fn cipher_verdict(&self, alg: Seq<char>, key: Seq<u8>, iv: Seq<u8>, ad: Seq<u8>) -> Result<
        (),
        &'static str,
    > {
        Ok(())
    }

    open spec fn spec_default_pbkdf_alg(&self) -> Seq<char> {
        "argon2"@
    }

    open spec fn spec_default_pbkdf_salt_length(&self) -> usize {
        16
    }

    open spec fn spec_default_pbkdf_millis(&self) -> u32 {
        100
    }

    open spec fn spec_default_cipher_alg(&self) -> Seq<char> {
        "aes-256-siv"@
    }

    fn check_hash(&self, _alg: &str) -> (r: Result<(), &'static str>) {
        Ok(())
    }

    fn check_pbkdf(
        &self,
        _alg: &str,
        _key_len: usize,
        _password: &str,
        _salt: &[u8],
        _params: &PbkdfParams,
    ) -> (r: Result<(), &'static str>) {
        Ok(())
    }

    fn check_cipher(&self, _alg: &str, _key: &[u8], _iv: &[u8], _ad: &[u8]) -> (r: Result<
        (),
        &'static str,
    >) {
        Ok(())
    }

    fn default_pbkdf_alg(&self) -> (r: String) {
        String::from_str("argon2")
    }

    fn default_pbkdf_salt_length(&self) -> (r: usize) {
        16
    }

    fn default_pbkdf_millis(&self) -> (r: u32) {
        100
    }

    fn default_cipher_alg(&self) -> (r: String) {
        String::from_str("aes-256-siv")
    }
}

/// Key derivations that the NIST policy approves.
pub open spec fn nist_approved_pbkdf(alg: Seq<char>) -> bool {
    alg == "pbkdf2-sha256"@ || alg == "pbkdf2-sha512"@
}

/// Ciphers that the NIST policy approves.
pub open spec fn nist_approved_cipher(alg: Seq<char>) -> bool {
    alg == "aes-256-gcm"@
}

/// Hashes that the NIST policy approves.
pub open spec fn nist_approved_hash(alg: Seq<char>) -> bool {
    alg == "sha3-256"@ || alg == "sha3-512"@
}

/// The NIST policy's verdict on using `alg` as an algorithm of `kind`
/// (`Cipher`, `Hash` or `PBKDF`).
pub open spec fn nist_alg_verdict(kind: Seq<char>, alg: Seq<char>) -> Result<(), &'static str> {
    if kind == "Cipher"@ {
        if nist_approved_cipher(alg) {
            Ok(())
        } else {
            Err("Algorithm not permitted by policy")
        }
    } else if kind == "Hash"@ {
        if nist_approved_hash(alg) {
            Ok(())
        } else {
            Err("Algorithm not permitted by policy")
        }
    } else if kind == "PBKDF"@ {
        if nist_approved_pbkdf(alg) {
            Ok(())
        } else {
            Err("Algorithm not permitted by policy")
        }
    } else {
        Err("Invalid algorithm kind")
    }
}

/// The NIST policy's verdict on a key derivation.
pub open spec fn nist_pbkdf_verdict(
    alg: Seq<char>,
    key_len: usize,
    salt: Seq<u8>,
    params: Map<Seq<char>, usize>,
) -> Result<(), &'static str> {
    if !nist_approved_pbkdf(alg) {
        Err("Algorithm not permitted by policy")
    } else if salt.len() < NIST_PBKDF_MIN_SALT_LEN {
        Err("Salt length violates policy")
    } else if key_len < NIST_PBKDF_MIN_KEY_LEN {
        Err("Key length violates policy")
    } else if params.contains_key("i"@) && params["i"@] < NIST_PBKDF_MIN_ITERATIONS {
        Err("Iteration count violates policy")
    } else {
        Ok(())
    }
}

/// The NIST policy's verdict on an encryption.
pub open spec fn nist_cipher_verdict(alg: Seq<char>, iv: Seq<u8>) -> Result<(), &'static str> {
    if !nist_approved_cipher(alg) {
        Err("Algorithm not permitted by policy")
    } else if alg == "aes-256-gcm"@ && iv.len() != NIST_GCM_IV_LEN {
        Err("IV length does not match NIST recommendations for this cipher.")
    } else {
        Ok(())
    }
}

/// The restrictive policy after NIST's recommendations.
pub struct CryptoPolicyNIST {}

impl CryptoPolicyNIST {
    pub fn new() -> (r: CryptoPolicyNIST) {
        CryptoPolicyNIST {  }
    }

    fn check_alg(&self, kind: &str, alg: &str) -> (r: Result<(), &'static str>)
        ensures
            r == nist_alg_verdict(kind@, alg@),
    {
        if str_eq(kind, "Cipher") {
            if str_eq(alg, "aes-256-gcm") {
                Ok(())
            } else {
                Err("Algorithm not permitted by policy")
            }
        } else if str_eq(kind, "Hash") {
            if str_eq(alg, "sha3-256") || str_eq(alg, "sha3-512") {
                Ok(())
            } else {
                Err("Algorithm not permitted by policy")
            }
        } else if str_eq(kind, "PBKDF") {
            if str_eq(alg, "pbkdf2-sha256") || str_eq(alg, "pbkdf2-sha512") {
                Ok(())
            } else {
                Err("Algorithm not permitted by policy")
            }
        } else {
            Err("Invalid algorithm kind")
        }
    }
}

impl CryptoPolicy for CryptoPolicyNIST {
    open spec fn hash_verdict(&self, alg: Seq<char>) -> Result<(), &'static str> {
        nist_alg_verdict("Hash"@, alg)
    }

    open spec fn pbkdf_verdict(
        &self,
        alg: Seq<char>,
        key_len: usize,
        salt: Seq<u8>,
        params: Map<Seq<char>, usize>,
    ) -> Result<(), &'static str> {
        nist_pbkdf_verdict(alg, key_len, salt, params)
    }

    open spec fn cipher_verdict(&self, alg: Seq<char>, key: Seq<u8>, iv: Seq<u8>, ad: Seq<u8>) -> Result<
        (),
        &'static str,
    > {
        nist_cipher_verdict(alg, iv)
    }

    open spec fn spec_default_pbkdf_alg(&self) -> Seq<char> {
        "pbkdf2-sha512"@
    }

    open spec fn spec_default_pbkdf_salt_length(&self) -> usize {
        32
    }

    open spec fn spec_default_pbkdf_millis(&self) -> u32 {
        100
    }

    open spec fn spec_default_cipher_alg(&self) -> Seq<char> {
        "aes-256-gcm"@
    }

    fn check_hash(&self, alg: &str) -> (r: Result<(), &'static str>) {
        self.check_alg("Hash", alg)
    }

    fn check_pbkdf(
        &self,
        alg: &str,
        key_len: usize,
        _password: &str,
        salt: &[u8],
        params: &PbkdfParams,
    ) -> (r: Result<(), &'static str>) {
        proof {
            reveal_strlit("PBKDF");
            reveal_strlit("Cipher");
            reveal_strlit("Hash");
            assert("PBKDF"@.len() == 5 && "Cipher"@.len() == 6 && "Hash"@.len() == 4);
        }
        match self.check_alg("PBKDF", alg) {
            Ok(()) => {},
            Err(e) => {
                return Err(e);
            },
        }
        if salt.len() < NIST_PBKDF_MIN_SALT_LEN {
            return Err("Salt length violates policy");
        }
        if key_len < NIST_PBKDF_MIN_KEY_LEN {
            return Err("Key length violates policy");
        }
        if let Some(iters) = params.get("i") {
            if iters < NIST_PBKDF_MIN_ITERATIONS {
                return Err("Iteration count violates policy");
            }
        }
        Ok(())
    }

    fn check_cipher(&self, alg: &str, _key: &[u8], iv: &[u8], _ad: &[u8]) -> (r: Result<
        (),
        &'static str,
    >) {
        proof {
            reveal_strlit("Cipher");
        }
        match self.check_alg("Cipher", alg) {
            Ok(()) => {},
            Err(e) => {
                return Err(e);
            },
        }
        if str_eq(alg, "aes-256-gcm") && iv.len() != NIST_GCM_IV_LEN {
            return Err("IV length does not match NIST recommendations for this cipher.");
        }
        Ok(())
    }

    fn default_pbkdf_alg(&self) -> (r: String) {
        String::from_str("pbkdf2-sha512")
    }

    fn default_pbkdf_salt_length(&self) -> (r: usize) {
        32
    }

    fn default_pbkdf_millis(&self) -> (r: u32) {
        100
    }

    fn default_cipher_alg(&self) -> (r: String) {
        String::from_str("aes-256-gcm")
    }
}

/// Under the NIST policy a key derivation, a cipher or a hash outside the
/// approved sets is refused, whatever the other arguments are.
pub proof fn lemma_nist_refuses_unapproved(
    p: CryptoPolicyNIST,
    alg: Seq<char>,
    key_len: usize,
    salt: Seq<u8>,
    params: Map<Seq<char>, usize>,
    key: Seq<u8>,
    iv: Seq<u8>,
    ad: Seq<u8>,
)
    ensures
        !nist_approved_pbkdf(alg) ==> p.pbkdf_verdict(alg, key_len, salt, params) == Err::<
            (),
            &'static str,
        >("Algorithm not permitted by policy"),
        !nist_approved_cipher(alg) ==> p.cipher_verdict(alg, key, iv, ad) == Err::<(), &'static str>(
            "Algorithm not permitted by policy",
        ),
        !nist_approved_hash(alg) ==> p.hash_verdict(alg) == Err::<(), &'static str>(
            "Algorithm not permitted by policy",
        ),
{
    reveal_strlit("Hash");
    reveal_strlit("Cipher");
    assert("Hash"@.len() == 4 && "Cipher"@.len() == 6);
}

/// Under the NIST policy AES-GCM is accepted with a twelve-byte IV and with
/// no other length.
pub proof fn lemma_nist_gcm_iv(p: CryptoPolicyNIST, key: Seq<u8>, iv: Seq<u8>, ad: Seq<u8>)
    ensures
        p.cipher_verdict("aes-256-gcm"@, key, iv, ad) is Ok <==> iv.len() == 12,
{
}

/// The permissive policy accepts every hash, derivation and cipher.
pub proof fn lemma_none_accepts_all(
    p: CryptoPolicyNone,
    alg: Seq<char>,
    key_len: usize,
    salt: Seq<u8>,
    params: Map<Seq<char>, usize>,
    key: Seq<u8>,
    iv: Seq<u8>,
    ad: Seq<u8>,
)
    ensures
        p.hash_verdict(alg) is Ok,
        p.pbkdf_verdict(alg, key_len, salt, params) is Ok,
        p.cipher_verdict(alg, key, iv, ad) is Ok,
{
}

} // verus!
