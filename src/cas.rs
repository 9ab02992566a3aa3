//! Names and integrity of entries in the content-addressed store.
use vstd::prelude::*;
use crate::crypto::{hex_of, hex_of_digest};
use crate::text::str_eq;

verus! {

/// The file name of the entry whose digest is `digest`: its lower-case
/// hexadecimal followed by `.cas`.
pub fn cas_file_name(digest: &[u8]) -> (r: String)
    ensures
        r@ == hex_of(digest@) + seq!['.', 'c', 'a', 's'],
{
    proof {
        reveal_strlit(".cas");
        assert(".cas"@ =~= seq!['.', 'c', 'a', 's']);
    }
    let mut name = hex_of_digest(digest);
    name.append(".cas");
    name
}

/// Checks a blob read from the store under the name `expected_hex`
/// against the digest that was computed over its bytes.
pub fn check_cas_entry(expected_hex: &str, computed: &[u8]) -> (r: Result<(), &'static str>)
    ensures
        r == (if expected_hex@ == hex_of(computed@) {
            Ok::<(), &'static str>(())
        } else {
            Err("CAS corruption")
        }),
{
    let actual = hex_of_digest(computed);
    if str_eq(expected_hex, actual.as_str()) {
        Ok(())
    } else {
        Err("CAS corruption")
    }
}

} // verus!
