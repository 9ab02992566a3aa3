//! botan's names for the library's algorithms, and the policy checks and
//! parameter handling that come before and after hashing and key derivation.
use vstd::prelude::*;
use crate::params::PbkdfParams;
use crate::text::{has_prefix, str_eq};

pub use crate::policy::{CryptoPolicy, CryptoPolicyNIST};

verus! {

/// The permissive policy, which is the one in force when none is chosen.
pub type CryptoPolicyDefault = crate::policy::CryptoPolicyNone;

/// The library's hash names and botan's names for them.
pub open spec fn botan_hash_name(alg: Seq<char>) -> Result<&'static str, &'static str> {
    if alg == "sha256"@ {
        Ok("SHA-256")
    } else if alg == "sha512"@ {
        Ok("SHA-512")
    } else if alg == "sha3-256"@ {
        Ok("SHA-3(256)")
    } else if alg == "sha3-512"@ {
        Ok("SHA-3(512)")
    } else {
        Err("Unrecognized hash algorithm")
    }
}

/// Botan's name for the hash `alg`.
pub fn to_botan_hash(alg: &str) -> (r: Result<&'static str, &'static str>)
    ensures
        r == botan_hash_name(alg@),
{
    if str_eq(alg, "sha256") {
        Ok("SHA-256")
    } else if str_eq(alg, "sha512") {
        Ok("SHA-512")
    } else if str_eq(alg, "sha3-256") {
        Ok("SHA-3(256)")
    } else if str_eq(alg, "sha3-512") {
        Ok("SHA-3(512)")
    } else {
        Err("Unrecognized hash algorithm")
    }
}

/// The library's key-derivation names and botan's names for them:
/// `pbkdf2-<hash>` is PBKDF2 over that hash, and `legacy`, kept for reading
/// old payloads, is PBKDF2 over SHA-256.
pub open spec fn botan_pbkdf_name(alg: Seq<char>) -> Result<Seq<char>, &'static str> {
    let pre = "pbkdf2-"@;
    if pre.len() <= alg.len() && alg.subrange(0, pre.len() as int) == pre {
        match botan_hash_name(alg.subrange(pre.len() as int, alg.len() as int)) {
            Ok(h) => Ok("PBKDF2("@ + h@ + ")"@),
            Err(e) => Err(e),
        }
    } else if alg == "argon2"@ {
        Ok("Argon2id"@)
    } else if alg == "scrypt"@ {
        Ok("Scrypt"@)
    } else if alg == "legacy"@ {
        Ok("PBKDF2(SHA-256)"@)
    } else {
        Err("Invalid KDF")
    }
}

/// Botan's name for the key derivation `alg`.
pub fn to_botan_pbkdf(alg: &str) -> (r: Result<String, &'static str>)
    ensures
        match botan_pbkdf_name(alg@) {
            Ok(n) => r is Ok && r->Ok_0@ == n,
            Err(e) => r == Err::<String, &'static str>(e),
        },
{
    let pre = "pbkdf2-";
    if has_prefix(alg, pre) {
        let rest = alg.substring_char(pre.unicode_len(), alg.unicode_len());
        match to_botan_hash(rest) {
            Ok(h) => {
                let mut name = String::from_str("PBKDF2(");
                name.append(h);
                name.append(")");
                Ok(name)
            },
            Err(e) => Err(e),
        }
    } else if str_eq(alg, "argon2") {
        Ok(String::from_str("Argon2id"))
    } else if str_eq(alg, "scrypt") {
        Ok(String::from_str("Scrypt"))
    } else if str_eq(alg, "legacy") {
        Ok(String::from_str("PBKDF2(SHA-256)"))
    } else {
        Err("Invalid KDF")
    }
}

/// Lower-case hexadecimal digit of a value below sixteen.
pub open spec fn hex_digit(n: u8) -> char {
    if n < 10 {
        (48 + n) as char
    } else {
        (87 + n) as char
    }
}

/// Two lower-case hexadecimal digits for each byte, high nibble first.
pub open spec fn hex_of(b: Seq<u8>) -> Seq<char>
    decreases b.len(),
{
    if b.len() == 0 {
        Seq::empty()
    } else {
        hex_of(b.drop_last()) + seq![hex_digit(b.last() / 16), hex_digit(b.last() % 16)]
    }
}

/// Relies on hex::encode: two lower-case digits for each byte, in order.
#[verifier::external_body]
fn to_hex(b: &[u8]) -> (r: String)
    ensures
        r@ == hex_of(b@),
{
    hex::encode(b)
}

/// What hashing `data` with `alg` under `policy` comes to before botan
/// is called: the policy's refusal, an unknown name, or botan's name.
pub open spec fn digest_plan<P: CryptoPolicy>(policy: P, alg: Seq<char>) -> Result<&'static str, &'static str> {
    match policy.hash_verdict(alg) {
        Err(e) => Err(e),
        Ok(_) => botan_hash_name(alg),
    }
}

/// Botan's name for the hash `alg`, once `policy` has accepted it. A
/// caller hands the name to botan's hash function.
pub fn hash_name_for<P: CryptoPolicy>(alg: &str, policy: &P) -> (r: Result<&'static str, &'static str>)
    ensures
        r == digest_plan(*policy, alg@),
{
    match policy.check_hash(alg) {
        Ok(()) => {},
        Err(e) => {
            return Err(e);
        },
    }
    to_botan_hash(alg)
}

/// A digest in lower-case hexadecimal.
pub fn hex_of_digest(d: &[u8]) -> (r: String)
    ensures
        r@ == hex_of(d@),
{
    to_hex(d)
}

/// The views of the names of a parameter order.
pub open spec fn names_of(order: Seq<&str>) -> Seq<Seq<char>> {
    order.map_values(|s: &str| s@)
}

/// The names that the non-empty slots among `names` hold.
pub open spec fn named_slots(names: Seq<Seq<char>>) -> Set<Seq<char>> {
    Set::new(|k: Seq<char>| exists|j: int| 0 <= j < names.len() && names[j].len() > 0 && names[j] == k)
}

/// Whether each non-empty slot among `names` finds its parameter in
/// `params`, no name taken twice.
pub open spec fn slots_filled(params: Map<Seq<char>, usize>, names: Seq<Seq<char>>) -> bool {
    forall|j: int|
        0 <= j < names.len() && names[j].len() > 0 ==> params.contains_key(names[j]) && forall|i: int|
            0 <= i < j ==> names[i] != names[j]
}

/// The value that slot `j` receives: its parameter, or zero for an empty slot.
pub open spec fn slot_value(params: Map<Seq<char>, usize>, names: Seq<Seq<char>>, j: int) -> usize {
    if names[j].len() > 0 {
        params[names[j]]
    } else {
        0
    }
}

/// What deriving a key comes to before botan is called: a refusal by the
/// policy, a missing or extraneous parameter, an unknown derivation, or
/// botan's name for it.
pub open spec fn derive_plan<P: CryptoPolicy>(
    policy: P,
    alg: Seq<char>,
    names: Seq<Seq<char>>,
    key_len: usize,
    salt: Seq<u8>,
    params: Map<Seq<char>, usize>,
) -> Result<Seq<char>, &'static str> {
    match policy.pbkdf_verdict(alg, key_len, salt, params) {
        Err(e) => Err(e),
        Ok(_) => if !slots_filled(params, names) {
            Err("Missing PBKDF parameter")
        } else if !params.dom().subset_of(named_slots(names)) {
            Err("Extraneous PBKDF parameters")
        } else {
            botan_pbkdf_name(alg)
        },
    }
}

proof fn lemma_named_slots_step(names: Seq<Seq<char>>, j: int)
    requires
        0 <= j < names.len(),
    ensures
        named_slots(names.take(j + 1)) == (if names[j].len() > 0 {
            named_slots(names.take(j)).insert(names[j])
        } else {
            named_slots(names.take(j))
        }),
{
    let a = names.take(j + 1);
    let b = names.take(j);
    let s = if names[j].len() > 0 {
        named_slots(b).insert(names[j])
    } else {
        named_slots(b)
    };
    assert forall|k: Seq<char>| named_slots(a).contains(k) == s.contains(k) by {
        if named_slots(a).contains(k) {
            let i = choose|i: int| 0 <= i < a.len() && a[i].len() > 0 && a[i] == k;
            if i < j {
                assert(b[i] == a[i]);
            }
        }
        if named_slots(b).contains(k) {
            let i = choose|i: int| 0 <= i < b.len() && b[i].len() > 0 && b[i] == k;
            assert(a[i] == b[i]);
        }
        if names[j].len() > 0 && k == names[j] {
            assert(a[j] == names[j]);
        }
    }
    assert(named_slots(a) =~= s);
}

proof fn lemma_slots_filled_step(m: Map<Seq<char>, usize>, names: Seq<Seq<char>>, j: int)
    requires
        0 <= j < names.len(),
        slots_filled(m, names.take(j)),
        names[j].len() > 0 ==> m.contains_key(names[j]) && !named_slots(names.take(j)).contains(
            names[j],
        ),
    ensures
        slots_filled(m, names.take(j + 1)),
{
    let a = names.take(j + 1);
    let b = names.take(j);
    assert forall|jj: int| 0 <= jj < a.len() && a[jj].len() > 0 implies m.contains_key(a[jj])
        && forall|i: int| 0 <= i < jj ==> a[i] != a[jj] by {
        if jj < j {
            assert(a[jj] == b[jj]);
            assert forall|i: int| 0 <= i < jj implies a[i] != a[jj] by {
                assert(a[i] == b[i]);
            }
        } else {
            assert forall|i: int| 0 <= i < jj implies a[i] != a[jj] by {
                assert(a[i] == b[i]);
                if a[i] == a[jj] {
                    assert(named_slots(b).contains(b[i]));
                }
            }
        }
    }
}

/// What botan's password hash is called with to derive a key of `key_len`
/// bytes from `password` and `salt` with the derivation `alg` and the
/// parameters `params_map`: botan's name for the derivation and its three
/// numeric arguments. Each argument slot takes the parameter that
/// `param_order[1]` names there; an empty name leaves its slot zero.
pub fn derive_key_inputs<P: CryptoPolicy>(
    alg: &str,
    param_order: &[&[&str; 3]; 2],
    key_len: usize,
    password: &str,
    salt: &[u8],
    params_map: PbkdfParams,
    policy: &P,
) -> (r: Result<(String, [usize; 3]), &'static str>)
    ensures
        ({
            let names = names_of(param_order@[1]@);
            match derive_plan(*policy, alg@, names, key_len, salt@, params_map@) {
                Err(e) => r == Err::<(String, [usize; 3]), &'static str>(e),
                Ok(name) => r is Ok && r->Ok_0.0@ == name && forall|j: int|
                    0 <= j < 3 ==> r->Ok_0.1@[j] == slot_value(params_map@, names, j),
            }
        }),
{
    match policy.check_pbkdf(alg, key_len, password, salt, &params_map) {
        Ok(()) => {},
        Err(e) => {
            return Err(e);
        },
    }
    let ghost m = params_map@;
    let ghost names = names_of(param_order@[1]@);
    let order: &[&str; 3] = param_order[1];
    let mut params = params_map;
    let mut values: [usize; 3] = [0, 0, 0];
    let mut j: usize = 0;
    while j < 3
        invariant
            0 <= j <= 3,
            policy.pbkdf_verdict(alg@, key_len, salt@, m) is Ok,
            names == names_of(order@),
            names == names_of(param_order@[1]@),
            m == params_map@,
            names.len() == 3,
            params@ == m.remove_keys(named_slots(names.take(j as int))),
            slots_filled(m, names.take(j as int)),
            forall|i: int| 0 <= i < j ==> values@[i] == slot_value(m, names, i),
            forall|i: int| j <= i < 3 ==> values@[i] == 0,
        decreases 3 - j,
    {
        let name: &str = order[j];
        proof {
            assert(names[j as int] == name@);
            lemma_named_slots_step(names, j as int);
        }
        if name.unicode_len() != 0 {
            let ghost before = params@;
            match params.remove(name) {
                Some(v) => {
                    proof {
                        lemma_slots_filled_step(m, names, j as int);
                    }
                    values[j] = v;
                },
                None => {
                    proof {
                        if slots_filled(m, names) {
                            assert(m.contains_key(names[j as int]));
                            assert forall|i: int| 0 <= i < j implies names.take(j as int)[i] != name@ by {
                                assert(names.take(j as int)[i] == names[i]);
                            }
                            assert(!named_slots(names.take(j as int)).contains(name@));
                            assert(before.contains_key(name@));
                        }
                    }
                    return Err("Missing PBKDF parameter");
                },
            }
        } else {
            proof {
                lemma_slots_filled_step(m, names, j as int);
            }
        }
        assert(params@ =~= m.remove_keys(named_slots(names.take(j as int + 1))));
        j = j + 1;
    }
    assert(names.take(3) =~= names);
    proof {
        if !m.dom().subset_of(named_slots(names)) {
            let k = choose|k: Seq<char>| m.dom().contains(k) && !named_slots(names).contains(k);
            assert(params@.dom().contains(k));
        } else {
            assert(params@.dom() =~= Set::<Seq<char>>::empty());
        }
    }
    if !params.is_empty() {
        return Err("Extraneous PBKDF parameters");
    }
    let name = match to_botan_pbkdf(alg) {
        Ok(n) => n,
        Err(e) => {
            return Err(e);
        },
    };
    Ok((name, values))
}

/// How many slots among `names` are named.
pub open spec fn count_named(names: Seq<Seq<char>>) -> nat
    decreases names.len(),
{
    if names.len() == 0 {
        0
    } else {
        count_named(names.drop_last()) + if names.last().len() > 0 {
            1nat
        } else {
            0nat
        }
    }
}

/// The parameters that tuned `values` stand for: the k-th named slot
/// among `names` takes the k-th value.
pub open spec fn tuned_params(names: Seq<Seq<char>>, values: Seq<usize>) -> Map<Seq<char>, usize>
    decreases names.len(),
{
    if names.len() == 0 {
        Map::empty()
    } else {
        let m = tuned_params(names.drop_last(), values);
        if names.last().len() > 0 {
            m.insert(names.last(), values[count_named(names.drop_last()) as int])
        } else {
            m
        }
    }
}

/// Names the three values that botan tuned for a derivation, in the
/// order that `names` gives; empty names are skipped.
pub fn timed_params(names: &[&str; 3], values: [usize; 3]) -> (r: PbkdfParams)
    ensures
        r@ == tuned_params(names_of(names@), values@),
{
    let ghost ns = names_of(names@);
    let mut params = PbkdfParams::new();
    let mut k: usize = 0;
    let mut i: usize = 0;
    assert(ns.take(0) =~= Seq::<Seq<char>>::empty());
    while i < 3
        invariant
            0 <= i <= 3,
            ns == names_of(names@),
            ns.len() == 3,
            k <= i,
            k == count_named(ns.take(i as int)),
            params@ == tuned_params(ns.take(i as int), values@),
        decreases 3 - i,
    {
        let name: &str = names[i];
        assert(ns.take(i as int + 1).drop_last() =~= ns.take(i as int));
        assert(ns[i as int] == name@);
        if name.unicode_len() != 0 {
            params.insert(String::from_str(name), values[k]);
            k = k + 1;
        }
        i = i + 1;
    }
    assert(ns.take(3) =~= ns);
    params
}

/// The parameters that botan tuned for deriving a key with `alg`, named
/// by `param_order[0]`, once `policy` has accepted them.
pub fn accept_tuned_params<P: CryptoPolicy>(
    alg: &str,
    param_order: &[&[&str; 3]; 2],
    key_len: usize,
    password: &str,
    salt: &[u8],
    tuned: [usize; 3],
    policy: &P,
) -> (r: Result<PbkdfParams, &'static str>)
    ensures
        ({
            let m = tuned_params(names_of(param_order@[0]@), tuned@);
            match policy.pbkdf_verdict(alg@, key_len, salt@, m) {
                Err(e) => r is Err && r->Err_0 == e,
                Ok(_) => r is Ok && r->Ok_0@ == m,
            }
        }),
{
    let params = timed_params(param_order[0], tuned);
    match policy.check_pbkdf(alg, key_len, password, salt, &params) {
        Ok(()) => Ok(params),
        Err(e) => Err(e),
    }
}

/// Tuned parameters round-trip: when the values that botan tuned are named
/// by `names` and a key is later derived with the same names, no parameter
/// is missing or extraneous, and the k-th named slot receives the k-th
/// tuned value. This holds when no name is used twice.
pub proof fn lemma_tuned_params_round_trip(names: Seq<Seq<char>>, values: Seq<usize>)
    requires
        forall|i: int, j: int|
            0 <= i < j < names.len() && names[j].len() > 0 ==> names[i] != names[j],
    ensures
        slots_filled(tuned_params(names, values), names),
        tuned_params(names, values).dom().subset_of(named_slots(names)),
        forall|j: int|
            0 <= j < names.len() && names[j].len() > 0 ==> slot_value(tuned_params(names, values), names, j)
                == values[count_named(names.take(j)) as int],
    decreases names.len(),
{
    if names.len() > 0 {
        let p = names.drop_last();
        lemma_tuned_params_round_trip(p, values);
        let m = tuned_params(names, values);
        let mp = tuned_params(p, values);
        assert forall|j: int| 0 <= j < names.len() && names[j].len() > 0 implies m.contains_key(names[j])
            && m[names[j]] == values[count_named(names.take(j)) as int] by {
            if j < names.len() - 1 {
                assert(p[j] == names[j]);
                assert(p.take(j) =~= names.take(j));
                assert(mp.contains_key(p[j]));
                assert(slot_value(mp, p, j) == values[count_named(p.take(j)) as int]);
                if names.last().len() > 0 {
                    assert(names[j] != names[names.len() - 1]);
                    assert(m == mp.insert(names.last(), values[count_named(p) as int]));
                } else {
                    assert(m == mp);
                }
            } else {
                assert(names.take(j) =~= p);
            }
        }
        assert forall|k: Seq<char>| m.contains_key(k) implies named_slots(names).contains(k) by {
            if mp.contains_key(k) {
                let j = choose|j: int| 0 <= j < p.len() && p[j].len() > 0 && p[j] == k;
                assert(names[j] == p[j]);
            } else {
                assert(names[names.len() - 1] == k);
            }
        }
    }
}

/// The names of the numeric parameters of a derivation, in the order of
/// botan's three parameter slots, for tuning and for deriving alike.
pub open spec fn pbkdf_param_names(alg: Seq<char>) -> Option<Seq<Seq<char>>> {
    if alg == "argon2"@ {
        Some(seq!["m"@, "t"@, "p"@])
    } else if alg == "scrypt"@ {
        Some(seq!["N"@, "r"@, "p"@])
    } else if botan_pbkdf_name(alg) is Ok {
        Some(seq!["i"@, ""@, ""@])
    } else {
        None
    }
}

/// The parameter order of derivation `alg`: the names that tuning gives
/// back and that deriving takes, slot by slot.
pub fn param_order(alg: &str) -> (r: Option<[&'static str; 3]>)
    ensures
        match pbkdf_param_names(alg@) {
            Some(ns) => r is Some && names_of(r->Some_0@) == ns,
            None => r is None,
        },
{
    let r: [&'static str; 3] = if str_eq(alg, "argon2") {
        ["m", "t", "p"]
    } else if str_eq(alg, "scrypt") {
        ["N", "r", "p"]
    } else if to_botan_pbkdf(alg).is_ok() {
        ["i", "", ""]
    } else {
        return None;
    };
    assert(names_of(r@) =~= pbkdf_param_names(alg@)->Some_0);
    Some(r)
}

/// The library's cipher names and botan's names for them.
pub open spec fn botan_cipher_name(alg: Seq<char>) -> Result<&'static str, &'static str> {
    if alg == "aes-256-gcm"@ {
        Ok("AES-256/GCM")
    } else if alg == "aes-256-siv"@ {
        Ok("AES-256/SIV")
    } else if alg == "aes-256-gcm-siv"@ {
        Ok("AES-256/GCM-SIV")
    } else {
        Err("Unrecognized cipher algorithm")
    }
}

/// Botan's name for the cipher `alg`.
pub fn to_botan_cipher(alg: &str) -> (r: Result<&'static str, &'static str>)
    ensures
        r == botan_cipher_name(alg@),
{
    if str_eq(alg, "aes-256-gcm") {
        Ok("AES-256/GCM")
    } else if str_eq(alg, "aes-256-siv") {
        Ok("AES-256/SIV")
    } else if str_eq(alg, "aes-256-gcm-siv") {
        Ok("AES-256/GCM-SIV")
    } else {
        Err("Unrecognized cipher algorithm")
    }
}

} // verus!
