//! Option values of the command line: policy selection, comma-separated
//! lists and `WORD=PASSWORD` pairs.
use vstd::prelude::*;
use crate::text::{split_on, split_spec, str_eq, views_of};

verus! {

/// The policy in force for a run.
#[derive(PartialEq, Eq, Structural, Debug, Clone, Copy)]
pub enum PolicyChoice {
    /// Every algorithm and parameter is accepted.
    Unrestricted,
    /// Only NIST-approved algorithms and parameters are accepted.
    Nist,
}

/// The policy that `--policy` (if given) and `--fips` select.
pub open spec fn policy_choice(fips: bool, requested: Option<Seq<char>>) -> Result<PolicyChoice, &'static str> {
    match requested {
        None => if fips {
            Ok(PolicyChoice::Nist)
        } else {
            Ok(PolicyChoice::Unrestricted)
        },
        Some(s) => if s == "nist"@ {
            Ok(PolicyChoice::Nist)
        } else if s == "none"@ {
            if fips {
                Err("Policy setting of 'none' conflicts with --fips")
            } else {
                Ok(PolicyChoice::Unrestricted)
            }
        } else {
            Err("Unknown policy")
        },
    }
}

/// Resolves `--policy` and `--fips`: FIPS mode selects the NIST policy
/// and refuses an explicit `none`.
pub fn choose_policy(fips: bool, requested: Option<&str>) -> (r: Result<PolicyChoice, &'static str>)
    ensures
        r == policy_choice(
            fips,
            match requested {
                Some(s) => Some(s@),
                None => None,
            },
        ),
{
    match requested {
        None => if fips {
            Ok(PolicyChoice::Nist)
        } else {
            Ok(PolicyChoice::Unrestricted)
        },
        Some(s) => if str_eq(s, "nist") {
            Ok(PolicyChoice::Nist)
        } else if str_eq(s, "none") {
            if fips {
                Err("Policy setting of 'none' conflicts with --fips")
            } else {
                Ok(PolicyChoice::Unrestricted)
            }
        } else {
            Err("Unknown policy")
        },
    }
}

/// Splits a comma-separated option value: `a,b` names `a` and `b`.
pub fn split_list(arg: &str) -> (r: Vec<String>)
    ensures
        views_of(r@) == split_spec(arg@, ','),
{
    split_on(arg, ',')
}

/// Whether `v` is `w=p`, with a word `w` that holds no `=` and a
/// non-empty password `p`.
pub open spec fn is_key_pair(v: Seq<char>, w: Seq<char>, p: Seq<char>) -> bool {
    w.len() > 0 && p.len() > 0 && !w.contains('=') && v == w + seq!['='] + p
}

/// Whether `v` has the form `WORD=PASSWORD`.
pub open spec fn has_key_pair(v: Seq<char>) -> bool {
    exists|w: Seq<char>, p: Seq<char>| is_key_pair(v, w, p)
}

/// Splits `WORD=PASSWORD` at its first `=`; both sides must be non-empty.
pub fn parse_key_pair(v: &str) -> (r: Option<(String, String)>)
    ensures
        match r {
            Some((w, p)) => is_key_pair(v@, w@, p@),
            None => !has_key_pair(v@),
        },
{
    let n = v.unicode_len();
    let mut i: usize = 0;
    while i < n
        invariant
            n == v@.len(),
            i <= n,
            forall|j: int| 0 <= j < i ==> v@[j] != '=',
        ensures
            i < n ==> v@[i as int] == '=',
            forall|j: int| 0 <= j < i ==> v@[j] != '=',
        decreases n - i,
    {
        if v.get_char(i) == '=' {
            break;
        }
        i = i + 1;
    }
    if i == 0 || i >= n - 1 {
        proof {
            if has_key_pair(v@) {
                let (w, p) = choose|w: Seq<char>, p: Seq<char>| is_key_pair(v@, w, p);
                assert(v@[w.len() as int] == '=');
                if w.len() < i {
                    assert(w[w.len() - 1] == v@[w.len() - 1]);
                }
                assert(w.len() >= i);
                if i < n {
                    assert(v@[i as int] == '=');
                    if w.len() > i {
                        assert(w.contains(w[i as int]));
                    }
                }
            }
        }
        return None;
    }
    assert(v@[i as int] == '=');
    let w = String::from_str(v.substring_char(0, i));
    let p = String::from_str(v.substring_char(i + 1, n));
    proof {
        assert(v@ =~= w@ + seq!['='] + p@);
        if w@.contains('=') {
            let k = choose|k: int| 0 <= k < w@.len() && w@[k] == '=';
            assert(v@[k] == '=');
        }
    }
    Some((w, p))
}

/// The `WORD=PASSWORD` pairs of a comma-separated `-k` value.
pub fn parse_key_list(arg: &str) -> (r: Result<Vec<(String, String)>, &'static str>)
    ensures
        ({
            let pieces = split_spec(arg@, ',');
            match r {
                Ok(v) => v@.len() == pieces.len() && forall|k: int|
                    0 <= k < pieces.len() ==> is_key_pair(pieces[k], v@[k].0@, v@[k].1@),
                Err(e) => e == "Must be of the form WORD=PASSWORD[,WORD=PASSWORD]" && exists|k: int|
                    0 <= k < pieces.len() && !has_key_pair(#[trigger] pieces[k]),
            }
        }),
{
    let pieces = split_list(arg);
    let ghost ps = split_spec(arg@, ',');
    let mut out: Vec<(String, String)> = Vec::new();
    let mut k: usize = 0;
    while k < pieces.len()
        invariant
            views_of(pieces@) == ps,
            ps == split_spec(arg@, ','),
            k <= pieces@.len(),
            out@.len() == k,
            forall|j: int| 0 <= j < k ==> is_key_pair(ps[j], out@[j].0@, out@[j].1@),
        decreases pieces@.len() - k,
    {
        assert(ps[k as int] == pieces@[k as int]@);
        match parse_key_pair(pieces[k].as_str()) {
            Some(pair) => {
                out.push(pair);
            },
            None => {
                assert(!has_key_pair(ps[k as int]));
                return Err("Must be of the form WORD=PASSWORD[,WORD=PASSWORD]");
            },
        }
        k = k + 1;
    }
    Ok(out)
}

} // verus!
