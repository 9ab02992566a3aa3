//! The one-line text of a protected payload: key derivation and its
//! parameters, cipher, IV, associated data and ciphertext.
use vstd::prelude::*;
use crate::crypto::{hex_digit, hex_of, hex_of_digest, names_of, param_order, pbkdf_param_names};
use crate::options::{has_key_pair, is_key_pair, parse_key_pair};
use crate::params::{decimal_value, entries_view, is_decimal, lemma_key_pair_unique, parse_decimal};
use crate::text::{
    has_prefix, join, lemma_concat_lacks, lemma_join_lacks, lemma_split_append, lemma_split_join,
    lemma_split_no_sep, split_on, split_spec, str_eq, views_of,
};

verus! {

/// Hexadecimal digits, in either case.
pub open spec fn is_hex_char(c: char) -> bool {
    ('0' <= c && c <= '9') || ('a' <= c && c <= 'f') || ('A' <= c && c <= 'F')
}

/// The value of a hexadecimal digit.
pub open spec fn hex_val(c: char) -> nat {
    if '0' <= c && c <= '9' {
        (c as u32 - 48) as nat
    } else if 'a' <= c && c <= 'f' {
        (c as u32 - 87) as nat
    } else {
        (c as u32 - 55) as nat
    }
}

/// The bytes that pairs of hexadecimal digits write, high digit first.
pub open spec fn hex_bytes(s: Seq<char>) -> Seq<u8>
    decreases s.len(),
{
    if s.len() < 2 {
        Seq::empty()
    } else {
        hex_bytes(s.subrange(0, s.len() - 2)).push(
            (hex_val(s[s.len() - 2]) * 16 + hex_val(s[s.len() - 1])) as u8,
        )
    }
}

/// What decoding hexadecimal text gives: bytes for an even number of
/// hexadecimal digits, nothing otherwise.
pub open spec fn hex_decoded(s: Seq<char>) -> Option<Seq<u8>> {
    if s.len() % 2 == 0 && forall|i: int| 0 <= i < s.len() ==> is_hex_char(#[trigger] s[i]) {
        Some(hex_bytes(s))
    } else {
        None
    }
}

#[verifier::external_type_specification]
#[verifier::external_body]
pub struct ExFromHexError(hex::FromHexError);

/// Relies on hex::decode: text of an even number of hexadecimal digits
/// (either case) decodes pair by pair, high digit first; anything else is
/// an error.
#[verifier::external_body]
fn from_hex(s: &str) -> (r: Result<Vec<u8>, hex::FromHexError>)
    ensures
        match hex_decoded(s@) {
            Some(b) => r is Ok && r->Ok_0@ == b,
            None => r is Err,
        },
{
    hex::decode(s)
}

/// Decodes hexadecimal text.
pub fn decode_hex(s: &str) -> (r: Option<Vec<u8>>)
    ensures
        match hex_decoded(s@) {
            Some(b) => r is Some && r->Some_0@ == b,
            None => r is None,
        },
{
    match from_hex(s) {
        Ok(b) => Some(b),
        Err(_) => None,
    }
}

/// Decoding the lower-case hexadecimal text of bytes gives them back.
pub proof fn lemma_hex_round_trip(b: Seq<u8>)
    ensures
        hex_decoded(hex_of(b)) == Some(b),
    decreases b.len(),
{
    if b.len() > 0 {
        lemma_hex_round_trip(b.drop_last());
        let h = hex_of(b);
        let p = hex_of(b.drop_last());
        let x = b.last();
        assert(h.subrange(0, h.len() - 2) =~= p);
        assert(hex_val(hex_digit(x / 16)) == (x / 16) as nat);
        assert(hex_val(hex_digit(x % 16)) == (x % 16) as nat);
        assert(((x / 16) as nat * 16 + (x % 16) as nat) as u8 == x);
        assert(hex_bytes(h) =~= b);
        assert forall|i: int| 0 <= i < h.len() implies is_hex_char(#[trigger] h[i]) by {
            if i < p.len() {
                assert(h[i] == p[i]);
            }
        }
    } else {
        assert(hex_bytes(hex_of(b)) =~= b);
    }
}

/// The decimal text of a number, without leading zeros.
pub open spec fn decimal_text(n: nat) -> Seq<char>
    decreases n,
{
    if n < 10 {
        seq![(48 + n) as char]
    } else {
        decimal_text(n / 10).push((48 + n % 10) as char)
    }
}

/// Reading the decimal text of a number gives it back.
pub proof fn lemma_decimal_round_trip(n: nat)
    ensures
        is_decimal(decimal_text(n)),
        decimal_value(decimal_text(n)) == n,
    decreases n,
{
    if n >= 10 {
        lemma_decimal_round_trip(n / 10);
        let t = decimal_text(n);
        assert(t.drop_last() == decimal_text(n / 10));
        assert(((48 + n % 10) as char) as u32 - 48 == n % 10);
        assert((n / 10) * 10 + n % 10 == n) by (nonlinear_arith);
        assert(t.last() == (48 + n % 10) as char);
        assert(decimal_value(t) == decimal_value(t.drop_last()) * 10 + (t.last() as u32 - 48) as nat);
        assert(decimal_value(t.drop_last()) == n / 10);
        let hi = decimal_value(t.drop_last());
        let lo = (t.last() as u32 - 48) as nat;
        assert(lo == n % 10);
        assert(hi * 10 + lo == n) by (nonlinear_arith)
            requires
                hi == n / 10,
                lo == n % 10,
        ;
        assert(decimal_value(t) == n);
        assert forall|i: int| 0 <= i < t.len() implies '0' <= #[trigger] t[i] <= '9' by {
            if i < t.len() - 1 {
                assert(t[i] == decimal_text(n / 10)[i]);
            }
        }
    } else {
        assert(decimal_text(n).drop_last() =~= Seq::<char>::empty());
        assert(((48 + n) as char) as u32 - 48 == n);
        let t = decimal_text(n);
        assert(decimal_value(t) == decimal_value(t.drop_last()) * 10 + (t.last() as u32 - 48) as nat);
        assert(decimal_value(t.drop_last()) == 0);
        assert(decimal_value(t) == n);
    }
}

/// Writes `n` in decimal.
pub fn decimal_string(n: usize) -> (r: String)
    ensures
        r@ == decimal_text(n as nat),
    decreases n,
{
    let d = n % 10;
    let digit = if d == 0 {
        "0"
    } else if d == 1 {
        "1"
    } else if d == 2 {
        "2"
    } else if d == 3 {
        "3"
    } else if d == 4 {
        "4"
    } else if d == 5 {
        "5"
    } else if d == 6 {
        "6"
    } else if d == 7 {
        "7"
    } else if d == 8 {
        "8"
    } else {
        "9"
    };
    proof {
        reveal_strlit("0");
        reveal_strlit("1");
        reveal_strlit("2");
        reveal_strlit("3");
        reveal_strlit("4");
        reveal_strlit("5");
        reveal_strlit("6");
        reveal_strlit("7");
        reveal_strlit("8");
        reveal_strlit("9");
        assert(digit@ =~= seq![(48 + d) as char]);
    }
    if n < 10 {
        String::from_str(digit)
    } else {
        let mut s = decimal_string(n / 10);
        s.append(digit);
        assert(s@ =~= decimal_text((n / 10) as nat).push((48 + n % 10) as char));
        s
    }
}

/// A protected payload: how the key was derived (algorithm, numeric
/// parameters in the order written, and salt), the cipher with its IV and
/// associated data, and the ciphertext.
pub struct ProtBlob {
    pub pbkdf_alg: String,
    pub pbkdf_params: Vec<(String, usize)>,
    pub salt: Vec<u8>,
    pub cipher_alg: String,
    pub iv: Vec<u8>,
    pub ad: Vec<u8>,
    pub ciphertext: Vec<u8>,
}

/// A payload as plain values: derivation, parameters, salt, cipher, IV,
/// associated data, ciphertext.
pub type BlobModel = (Seq<char>, Seq<(Seq<char>, usize)>, Seq<u8>, Seq<char>, Seq<u8>, Seq<u8>, Seq<u8>);

impl ProtBlob {
    pub open spec fn model(&self) -> BlobModel {
        (
            self.pbkdf_alg@,
            entries_view(self.pbkdf_params@),
            self.salt@,
            self.cipher_alg@,
            self.iv@,
            self.ad@,
            self.ciphertext@,
        )
    }
}

/// `name=value`.
pub open spec fn param_text(p: (Seq<char>, usize)) -> Seq<char> {
    p.0 + seq!['='] + decimal_text(p.1 as nat)
}

/// The texts of parameters, in order.
pub open spec fn param_texts(ps: Seq<(Seq<char>, usize)>) -> Seq<Seq<char>>
    decreases ps.len(),
{
    if ps.len() == 0 {
        Seq::empty()
    } else {
        param_texts(ps.drop_last()).push(param_text(ps.last()))
    }
}

/// `iv=<hex>,ad=<hex>`.
pub open spec fn iv_ad_text(iv: Seq<u8>, ad: Seq<u8>) -> Seq<char> {
    seq!['i', 'v', '='] + hex_of(iv) + seq![','] + (seq!['a', 'd', '='] + hex_of(ad))
}

/// The text of a payload:
/// `$<pbkdf>$<name>=<value>,...$<salt hex>$<cipher>$iv=<hex>,ad=<hex>$<ciphertext hex>`.
pub open spec fn blob_text(b: BlobModel) -> Seq<char> {
    join(
        seq![Seq::empty(), b.0, join(param_texts(b.1), ','), hex_of(b.2), b.3, iv_ad_text(b.4, b.5), hex_of(b.6)],
        '$',
    )
}

/// The parameter that `name=value` text sets.
pub open spec fn decode_param(p: Seq<char>) -> Option<(Seq<char>, usize)> {
    if has_key_pair(p) {
        let (w, v) = choose|w: Seq<char>, v: Seq<char>| is_key_pair(p, w, v);
        if is_decimal(v) && decimal_value(v) <= usize::MAX {
            Some((w, decimal_value(v) as usize))
        } else {
            None
        }
    } else {
        None
    }
}

/// The parameters that pieces of parameter text set, if every one does.
pub open spec fn decode_param_pieces(ps: Seq<Seq<char>>) -> Option<Seq<(Seq<char>, usize)>>
    decreases ps.len(),
{
    if ps.len() == 0 {
        Some(Seq::empty())
    } else {
        match decode_param_pieces(ps.drop_last()) {
            Some(a) => match decode_param(ps.last()) {
                Some(p) => Some(a.push(p)),
                None => None,
            },
            None => None,
        }
    }
}

/// The parameters of the parameter field; an empty field sets none.
pub open spec fn decode_params_field(t: Seq<char>) -> Option<Seq<(Seq<char>, usize)>> {
    if t.len() == 0 {
        Some(Seq::empty())
    } else {
        decode_param_pieces(split_spec(t, ','))
    }
}

/// The IV and associated data of `iv=<hex>,ad=<hex>`.
pub open spec fn decode_iv_ad(t: Seq<char>) -> Option<(Seq<u8>, Seq<u8>)> {
    let ps = split_spec(t, ',');
    if ps.len() == 2 && ps[0].len() >= 3 && ps[0].take(3) == seq!['i', 'v', '='] && ps[1].len()
        >= 3 && ps[1].take(3) == seq!['a', 'd', '='] {
        match (hex_decoded(ps[0].skip(3)), hex_decoded(ps[1].skip(3))) {
            (Some(iv), Some(ad)) => Some((iv, ad)),
            _ => None,
        }
    } else {
        None
    }
}

/// Whether each parameter is one that derivation `alg` takes, none named
/// twice.
pub open spec fn params_known(alg: Seq<char>, ps: Seq<(Seq<char>, usize)>) -> bool {
    match pbkdf_param_names(alg) {
        Some(ns) => forall|i: int|
            0 <= i < ps.len() ==> (#[trigger] ps[i]).0.len() > 0 && ns.contains(ps[i].0) && forall|j: int|
                0 <= j < i ==> ps[j].0 != ps[i].0,
        None => false,
    }
}

/// The payload that a text writes, if it is one.
pub open spec fn decode_blob(s: Seq<char>) -> Option<BlobModel> {
    let ps = split_spec(s, '$');
    if ps.len() == 7 && ps[0].len() == 0 {
        match (decode_params_field(ps[2]), hex_decoded(ps[3]), decode_iv_ad(ps[5]), hex_decoded(ps[6])) {
            (Some(params), Some(salt), Some((iv, ad)), Some(ct)) => if params_known(ps[1], params) {
                Some((ps[1], params, salt, ps[4], iv, ad, ct))
            } else {
                None
            },
            _ => None,
        }
    } else {
        None
    }
}

fn params_string(params: &Vec<(String, usize)>) -> (r: String)
    ensures
        r@ == join(param_texts(entries_view(params@)), ','),
{
    let ghost ps = entries_view(params@);
    let mut out = String::new();
    let mut k: usize = 0;
    proof {
        reveal_strlit(",");
        reveal_strlit("=");
        assert(","@ =~= seq![',']);
        assert("="@ =~= seq!['=']);
        assert(ps.take(0) =~= Seq::<(Seq<char>, usize)>::empty());
    }
    while k < params.len()
        invariant
            ps == entries_view(params@),
            k <= params@.len(),
            ","@ == seq![','],
            "="@ == seq!['='],
            out@ == join(param_texts(ps.take(k as int)), ','),
        decreases params@.len() - k,
    {
        assert(ps.take(k as int + 1).drop_last() =~= ps.take(k as int));
        assert(ps.take(k as int + 1).last() == ps[k as int]);
        assert(ps[k as int] == (params@[k as int].0@, params@[k as int].1));
        let ghost before = out@;
        if k > 0 {
            out.append(",");
        }
        out.append(params[k].0.as_str());
        out.append("=");
        let v = decimal_string(params[k].1);
        out.append(v.as_str());
        proof {
            let t = param_texts(ps.take(k as int + 1));
            assert(t == param_texts(ps.take(k as int)).push(param_text(ps[k as int])));
            assert(t.drop_last() =~= param_texts(ps.take(k as int)));
            if k == 0 {
                assert(param_texts(ps.take(0)) =~= Seq::<Seq<char>>::empty());
                assert(out@ =~= param_text(ps[0]));
            } else {
                assert(out@ =~= before + seq![','] + param_text(ps[k as int]));
            }
        }
        k = k + 1;
    }
    assert(ps.take(params@.len() as int) =~= ps);
    out
}

impl ProtBlob {
    /// The payload's text.
    pub fn to_text(&self) -> (r: String)
        ensures
            r@ == blob_text(self.model()),
    {
        proof {
            reveal_strlit("$");
            reveal_strlit("iv=");
            reveal_strlit(",ad=");
            assert("$"@ =~= seq!['$']);
            assert("iv="@ =~= seq!['i', 'v', '=']);
            assert(",ad="@ =~= seq![',', 'a', 'd', '=']);
        }
        let mut out = String::from_str("$");
        out.append(self.pbkdf_alg.as_str());
        out.append("$");
        let params = params_string(&self.pbkdf_params);
        out.append(params.as_str());
        out.append("$");
        let salt = hex_of_digest(self.salt.as_slice());
        out.append(salt.as_str());
        out.append("$");
        out.append(self.cipher_alg.as_str());
        out.append("$");
        out.append("iv=");
        let iv = hex_of_digest(self.iv.as_slice());
        out.append(iv.as_str());
        out.append(",ad=");
        let ad = hex_of_digest(self.ad.as_slice());
        out.append(ad.as_str());
        out.append("$");
        let ct = hex_of_digest(self.ciphertext.as_slice());
        out.append(ct.as_str());
        proof {
            reveal_with_fuel(join, 8);
            let m = self.model();
            let e = Seq::<char>::empty();
            let pm = join(param_texts(m.1), ',');
            let pieces = seq![e, m.0, pm, hex_of(m.2), m.3, iv_ad_text(m.4, m.5), hex_of(m.6)];
            assert(pieces.drop_last().drop_last().drop_last().drop_last().drop_last().drop_last() =~= seq![e]);
            assert(pieces.drop_last().drop_last().drop_last().drop_last().drop_last() =~= seq![e, m.0]);
            assert(pieces.drop_last().drop_last().drop_last().drop_last() =~= seq![e, m.0, pm]);
            assert(pieces.drop_last().drop_last().drop_last() =~= seq![e, m.0, pm, hex_of(m.2)]);
            assert(pieces.drop_last().drop_last() =~= seq![e, m.0, pm, hex_of(m.2), m.3]);
            assert(pieces.drop_last() =~= seq![e, m.0, pm, hex_of(m.2), m.3, iv_ad_text(m.4, m.5)]);
            assert(out@ =~= blob_text(m));
        }
        out
    }
}

fn parse_param(p: &str) -> (r: Option<(String, usize)>)
    ensures
        match decode_param(p@) {
            Some(x) => r is Some && r->Some_0.0@ == x.0 && r->Some_0.1 == x.1,
            None => r is None,
        },
{
    match parse_key_pair(p) {
        None => None,
        Some((w, v)) => {
            proof {
                assert(has_key_pair(p@));
                let (w2, v2) = choose|w: Seq<char>, v: Seq<char>| is_key_pair(p@, w, v);
                lemma_key_pair_unique(p@, w@, v@, w2, v2);
            }
            match parse_decimal(v.as_str()) {
                Some(n) => Some((w, n)),
                None => None,
            }
        },
    }
}

proof fn lemma_pieces_prefix_none(ps: Seq<Seq<char>>, k: int)
    requires
        0 <= k <= ps.len(),
        decode_param_pieces(ps.take(k)) is None,
    ensures
        decode_param_pieces(ps) is None,
    decreases ps.len() - k,
{
    if k == ps.len() {
        assert(ps.take(k) =~= ps);
    } else {
        assert(ps.take(k + 1).drop_last() =~= ps.take(k));
        lemma_pieces_prefix_none(ps, k + 1);
    }
}

fn parse_params_field(t: &str) -> (r: Option<Vec<(String, usize)>>)
    ensures
        match decode_params_field(t@) {
            Some(ps) => r is Some && entries_view(r->Some_0@) == ps,
            None => r is None,
        },
{
    if t.unicode_len() == 0 {
        let out: Vec<(String, usize)> = Vec::new();
        assert(entries_view(out@) =~= Seq::<(Seq<char>, usize)>::empty());
        return Some(out);
    }
    let pieces = split_on(t, ',');
    let ghost ps = views_of(pieces@);
    let mut out: Vec<(String, usize)> = Vec::new();
    let mut k: usize = 0;
    assert(ps.take(0) =~= Seq::<Seq<char>>::empty());
    assert(entries_view(out@) =~= Seq::<(Seq<char>, usize)>::empty());
    while k < pieces.len()
        invariant
            ps == views_of(pieces@),
            ps == split_spec(t@, ','),
            t@.len() > 0,
            k <= pieces@.len(),
            decode_param_pieces(ps.take(k as int)) == Some(entries_view(out@)),
        decreases pieces@.len() - k,
    {
        assert(ps.take(k as int + 1).drop_last() =~= ps.take(k as int));
        assert(ps.take(k as int + 1).last() == ps[k as int]);
        assert(ps[k as int] == pieces@[k as int]@);
        match parse_param(pieces[k].as_str()) {
            Some(p) => {
                let ghost before = out@;
                let ghost pv = (p.0@, p.1);
                out.push(p);
                assert(entries_view(out@) =~= entries_view(before).push(pv));
            },
            None => {
                proof {
                    assert(decode_param(ps[k as int]) is None);
                    assert(decode_param_pieces(ps.take(k as int + 1)) is None);
                    lemma_pieces_prefix_none(ps, k as int + 1);
                }
                return None;
            },
        }
        k = k + 1;
    }
    assert(ps.take(ps.len() as int) =~= ps);
    Some(out)
}

fn parse_iv_ad(t: &str) -> (r: Option<(Vec<u8>, Vec<u8>)>)
    ensures
        match decode_iv_ad(t@) {
            Some((iv, ad)) => r is Some && r->Some_0.0@ == iv && r->Some_0.1@ == ad,
            None => r is None,
        },
{
    proof {
        reveal_strlit("iv=");
        reveal_strlit("ad=");
        assert("iv="@ =~= seq!['i', 'v', '=']);
        assert("ad="@ =~= seq!['a', 'd', '=']);
    }
    let ps = split_on(t, ',');
    if ps.len() != 2 {
        return None;
    }
    let a = ps[0].as_str();
    let b = ps[1].as_str();
    assert(views_of(ps@)[0] == a@ && views_of(ps@)[1] == b@);
    if !has_prefix(a, "iv=") || !has_prefix(b, "ad=") {
        return None;
    }
    assert(a@.take(3) == a@.subrange(0, 3));
    assert(b@.take(3) == b@.subrange(0, 3));
    let ivt = a.substring_char(3, a.unicode_len());
    let adt = b.substring_char(3, b.unicode_len());
    assert(ivt@ == a@.skip(3));
    assert(adt@ == b@.skip(3));
    match decode_hex(ivt) {
        Some(iv) => match decode_hex(adt) {
            Some(ad) => Some((iv, ad)),
            None => None,
        },
        None => None,
    }
}

fn check_params(alg: &str, params: &Vec<(String, usize)>) -> (r: bool)
    ensures
        r == params_known(alg@, entries_view(params@)),
{
    let order = match param_order(alg) {
        Some(o) => o,
        None => {
            return false;
        },
    };
    let ghost ns = names_of(order@);
    let ghost ps = entries_view(params@);
    let mut i: usize = 0;
    while i < params.len()
        invariant
            ns == names_of(order@),
            pbkdf_param_names(alg@) == Some(ns),
            ps == entries_view(params@),
            i <= params@.len(),
            forall|a: int|
                0 <= a < i ==> (#[trigger] ps[a]).0.len() > 0 && ns.contains(ps[a].0) && forall|b: int|
                    0 <= b < a ==> ps[b].0 != ps[a].0,
        decreases params@.len() - i,
    {
        let name = params[i].0.as_str();
        assert(ps[i as int].0 == name@);
        if name.unicode_len() == 0 {
            return false;
        }
        if !(str_eq(name, order[0]) || str_eq(name, order[1]) || str_eq(name, order[2])) {
            proof {
                if ns.contains(name@) {
                    let k = choose|k: int| 0 <= k < ns.len() && ns[k] == name@;
                    assert(ns[k] == order@[k]@);
                }
            }
            return false;
        }
        assert(ns[0] == order@[0]@ && ns[1] == order@[1]@ && ns[2] == order@[2]@);
        let mut j: usize = 0;
        while j < i
            invariant
                ps == entries_view(params@),
                i < params@.len(),
                j <= i,
                ps[i as int].0 == name@,
                forall|b: int| 0 <= b < j ==> ps[b].0 != ps[i as int].0,
            decreases i - j,
        {
            assert(ps[j as int].0 == params@[j as int].0@);
            if str_eq(params[j].0.as_str(), name) {
                return false;
            }
            j = j + 1;
        }
        i = i + 1;
    }
    true
}

impl ProtBlob {
    /// Reads a payload from its text.
    pub fn parse(text: &str) -> (r: Result<ProtBlob, &'static str>)
        ensures
            match decode_blob(text@) {
                Some(m) => r is Ok && r->Ok_0.model() == m,
                None => r == Err::<ProtBlob, &'static str>("Malformed protected payload"),
            },
    {
        let pieces = split_on(text, '$');
        if pieces.len() != 7 || pieces[0].unicode_len() != 0 {
            return Err("Malformed protected payload");
        }
        let ghost ps = views_of(pieces@);
        assert(ps[0] == pieces@[0]@ && ps[1] == pieces@[1]@ && ps[2] == pieces@[2]@);
        assert(ps[3] == pieces@[3]@ && ps[4] == pieces@[4]@ && ps[5] == pieces@[5]@);
        assert(ps[6] == pieces@[6]@);
        let params = match parse_params_field(pieces[2].as_str()) {
            Some(p) => p,
            None => {
                return Err("Malformed protected payload");
            },
        };
        let salt = match decode_hex(pieces[3].as_str()) {
            Some(s) => s,
            None => {
                return Err("Malformed protected payload");
            },
        };
        let (iv, ad) = match parse_iv_ad(pieces[5].as_str()) {
            Some(x) => x,
            None => {
                return Err("Malformed protected payload");
            },
        };
        let ciphertext = match decode_hex(pieces[6].as_str()) {
            Some(c) => c,
            None => {
                return Err("Malformed protected payload");
            },
        };
        if !check_params(pieces[1].as_str(), &params) {
            return Err("Malformed protected payload");
        }
        Ok(
            ProtBlob {
                pbkdf_alg: pieces[1].clone(),
                pbkdf_params: params,
                salt,
                cipher_alg: pieces[4].clone(),
                iv,
                ad,
                ciphertext,
            },
        )
    }
}

/// Whether a payload can be written and read back: the algorithm names
/// hold no `$`, and each parameter name is non-empty and holds none of
/// `$`, `,` and `=`.
pub open spec fn blob_well_formed(m: BlobModel) -> bool {
    &&& !m.0.contains('$')
    &&& !m.3.contains('$')
    &&& forall|i: int|
        0 <= i < m.1.len() ==> {
            let n = (#[trigger] m.1[i]).0;
            n.len() > 0 && !n.contains('$') && !n.contains(',') && !n.contains('=')
        }
}

proof fn lemma_digits_lack(n: nat, c: char)
    requires
        !('0' <= c && c <= '9'),
    ensures
        !decimal_text(n).contains(c),
{
    lemma_decimal_round_trip(n);
    let t = decimal_text(n);
    if t.contains(c) {
        let i = choose|i: int| 0 <= i < t.len() && t[i] == c;
        assert('0' <= t[i] <= '9');
    }
}

proof fn lemma_hex_lacks(b: Seq<u8>, c: char)
    requires
        !is_hex_char(c),
    ensures
        !hex_of(b).contains(c),
{
    lemma_hex_round_trip(b);
    let t = hex_of(b);
    if t.contains(c) {
        let i = choose|i: int| 0 <= i < t.len() && t[i] == c;
        assert(is_hex_char(t[i]));
    }
}

proof fn lemma_lacks_one(x: char, c: char)
    requires
        x != c,
    ensures
        !seq![x].contains(c),
{
    if seq![x].contains(c) {
        assert(seq![x][0] == x);
    }
}

proof fn lemma_param_text(p: (Seq<char>, usize))
    requires
        p.0.len() > 0 && !p.0.contains('$') && !p.0.contains(',') && !p.0.contains('='),
    ensures
        !param_text(p).contains('$'),
        !param_text(p).contains(','),
        decode_param(param_text(p)) == Some(p),
{
    let d = decimal_text(p.1 as nat);
    lemma_digits_lack(p.1 as nat, '$');
    lemma_digits_lack(p.1 as nat, ',');
    lemma_lacks_one('=', '$');
    lemma_lacks_one('=', ',');
    lemma_concat_lacks(p.0, seq!['='], '$');
    lemma_concat_lacks(p.0 + seq!['='], d, '$');
    lemma_concat_lacks(p.0, seq!['='], ',');
    lemma_concat_lacks(p.0 + seq!['='], d, ',');
    lemma_decimal_round_trip(p.1 as nat);
    let t = param_text(p);
    assert(is_key_pair(t, p.0, d));
    assert(has_key_pair(t));
    let (w, v) = choose|w: Seq<char>, v: Seq<char>| is_key_pair(t, w, v);
    crate::params::lemma_key_pair_unique(t, p.0, d, w, v);
}

proof fn lemma_param_pieces(ps: Seq<(Seq<char>, usize)>)
    requires
        forall|i: int|
            0 <= i < ps.len() ==> {
                let n = (#[trigger] ps[i]).0;
                n.len() > 0 && !n.contains('$') && !n.contains(',') && !n.contains('=')
            },
    ensures
        decode_param_pieces(param_texts(ps)) == Some(ps),
        param_texts(ps).len() == ps.len(),
        forall|i: int|
            0 <= i < ps.len() ==> !(#[trigger] param_texts(ps)[i]).contains('$') && !param_texts(
                ps,
            )[i].contains(',') && param_texts(ps)[i] == param_text(ps[i]),
    decreases ps.len(),
{
    if ps.len() > 0 {
        let q = ps.drop_last();
        assert forall|i: int| 0 <= i < q.len() implies {
            let n = (#[trigger] q[i]).0;
            n.len() > 0 && !n.contains('$') && !n.contains(',') && !n.contains('=')
        } by {
            assert(q[i] == ps[i]);
        }
        lemma_param_pieces(q);
        assert(ps[ps.len() - 1] == ps.last());
        lemma_param_text(ps.last());
        let t = param_texts(ps);
        assert(t.drop_last() =~= param_texts(q));
        assert(q.push(ps.last()) =~= ps);
        assert forall|i: int| 0 <= i < ps.len() implies !(#[trigger] param_texts(ps)[i]).contains('$')
            && !param_texts(ps)[i].contains(',') && param_texts(ps)[i] == param_text(ps[i]) by {
            if i < q.len() {
                assert(t[i] == param_texts(q)[i]);
                assert(q[i] == ps[i]);
            }
        }
    }
}

proof fn lemma_iv_ad(iv: Seq<u8>, ad: Seq<u8>)
    ensures
        decode_iv_ad(iv_ad_text(iv, ad)) == Some((iv, ad)),
        !iv_ad_text(iv, ad).contains('$'),
{
    let a = seq!['i', 'v', '='] + hex_of(iv);
    let b = seq!['a', 'd', '='] + hex_of(ad);
    lemma_hex_lacks(iv, ',');
    lemma_hex_lacks(ad, ',');
    lemma_hex_lacks(iv, '$');
    lemma_hex_lacks(ad, '$');
    assert(!seq!['i', 'v', '='].contains(',')) by {
        if seq!['i', 'v', '='].contains(',') {
            let i = choose|i: int| 0 <= i < 3 && seq!['i', 'v', '='][i] == ',';
        }
    }
    assert(!seq!['i', 'v', '='].contains('$')) by {
        if seq!['i', 'v', '='].contains('$') {
            let i = choose|i: int| 0 <= i < 3 && seq!['i', 'v', '='][i] == '$';
        }
    }
    assert(!seq!['a', 'd', '='].contains('$')) by {
        if seq!['a', 'd', '='].contains('$') {
            let i = choose|i: int| 0 <= i < 3 && seq!['a', 'd', '='][i] == '$';
        }
    }
    lemma_concat_lacks(seq!['i', 'v', '='], hex_of(iv), ',');
    lemma_concat_lacks(seq!['i', 'v', '='], hex_of(iv), '$');
    lemma_concat_lacks(seq!['a', 'd', '='], hex_of(ad), '$');
    lemma_lacks_one(',', '$');
    lemma_concat_lacks(a, seq![','], '$');
    lemma_concat_lacks(a + seq![','], b, '$');
    assert(!b.contains(',')) by {
        if b.contains(',') {
            let i = choose|i: int| 0 <= i < b.len() && b[i] == ',';
            if i >= 3 {
                assert(hex_of(ad)[i - 3] == ',');
            }
        }
    }
    lemma_split_append(a, b, ',');
    lemma_split_no_sep(a, ',');
    assert(iv_ad_text(iv, ad) =~= a + seq![','] + b);
    let ps = split_spec(iv_ad_text(iv, ad), ',');
    assert(ps =~= seq![a, b]);
    assert(a.take(3) =~= seq!['i', 'v', '=']);
    assert(a.skip(3) =~= hex_of(iv));
    assert(b.take(3) =~= seq!['a', 'd', '=']);
    assert(b.skip(3) =~= hex_of(ad));
    lemma_hex_round_trip(iv);
    lemma_hex_round_trip(ad);
}

/// Reading a payload's text gives the payload back, whenever its names can
/// be written unambiguously and its parameters are the derivation's own.
pub proof fn lemma_blob_round_trip(m: BlobModel)
    requires
        blob_well_formed(m),
        params_known(m.0, m.1),
    ensures
        decode_blob(blob_text(m)) == Some(m),
{
    let params = join(param_texts(m.1), ',');
    lemma_param_pieces(m.1);
    lemma_iv_ad(m.4, m.5);
    lemma_hex_lacks(m.2, '$');
    lemma_hex_round_trip(m.2);
    lemma_hex_lacks(m.6, '$');
    lemma_hex_round_trip(m.6);
    assert forall|i: int| 0 <= i < param_texts(m.1).len() implies !(#[trigger] param_texts(m.1)[i]).contains('$') by {}
    lemma_join_lacks(param_texts(m.1), ',', '$');
    let pieces = seq![Seq::empty(), m.0, params, hex_of(m.2), m.3, iv_ad_text(m.4, m.5), hex_of(m.6)];
    assert forall|i: int| 0 <= i < pieces.len() implies !(#[trigger] pieces[i]).contains('$') by {
        if i == 0 {
            assert(!Seq::<char>::empty().contains('$'));
        }
    }
    lemma_split_join(pieces, '$');
    assert(split_spec(blob_text(m), '$') == pieces);
    if m.1.len() == 0 {
        assert(param_texts(m.1) =~= Seq::<Seq<char>>::empty());
        assert(m.1 =~= Seq::<(Seq<char>, usize)>::empty());
    } else {
        assert forall|i: int| 0 <= i < param_texts(m.1).len() implies !(#[trigger] param_texts(m.1)[i]).contains(',') by {}
        lemma_split_join(param_texts(m.1), ',');
        let pt = param_texts(m.1);
        assert(pt[pt.len() - 1] == param_text(m.1[m.1.len() - 1]));
        if pt.len() == 1 {
            assert(params == pt[0]);
        } else {
            assert(params == join(pt.drop_last(), ',') + seq![','] + pt.last());
        }
        assert(params.len() > 0);
    }
}

} // verus!
