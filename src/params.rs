//! Named numeric parameters of a password-based key derivation.
use vstd::prelude::*;
use crate::text::str_eq;
use crate::options::{is_key_pair, has_key_pair, parse_key_pair, split_list};
use crate::text::{split_spec, views_of};

verus! {

/// The mapping that a list of `(name, value)` entries denotes: later
/// entries override earlier ones with the same name.
pub open spec fn map_of(s: Seq<(Seq<char>, usize)>) -> Map<Seq<char>, usize>
    decreases s.len(),
{
    if s.len() == 0 {
        Map::empty()
    } else {
        map_of(s.drop_last()).insert(s.last().0, s.last().1)
    }
}

/// The names and views of a list of entries.
pub open spec fn entries_view(v: Seq<(String, usize)>) -> Seq<(Seq<char>, usize)> {
    v.map_values(|e: (String, usize)| (e.0@, e.1))
}

/// Parameters of a key derivation, by name (`i`, `m`, `t`, `p`, ...).
/// Held as a list of pairs, so that every lookup, insertion and removal
/// has a contract over the map that the list denotes.
#[derive(Debug)]
pub struct PbkdfParams {
    entries: Vec<(String, usize)>,
}

impl View for PbkdfParams {
    type V = Map<Seq<char>, usize>;

    closed spec fn view(&self) -> Map<Seq<char>, usize> {
        map_of(entries_view(self.entries@))
    }
}

proof fn lemma_map_of_prefix(s: Seq<(Seq<char>, usize)>, i: int)
    requires
        0 <= i < s.len(),
    ensures
        map_of(s.subrange(0, i + 1)) == map_of(s.subrange(0, i)).insert(s[i].0, s[i].1),
{
    assert(s.subrange(0, i + 1).drop_last() =~= s.subrange(0, i));
}

proof fn lemma_map_of_empty(s: Seq<(Seq<char>, usize)>)
    ensures
        (map_of(s).dom() =~= Set::<Seq<char>>::empty()) == (s.len() == 0),
{
    if s.len() > 0 {
        assert(map_of(s).contains_key(s.last().0));
    }
}

impl PbkdfParams {
    /// No parameters.
    pub fn new() -> (r: PbkdfParams)
        ensures
            r@ == Map::<Seq<char>, usize>::empty(),
    {
        let r = PbkdfParams { entries: Vec::new() };
        assert(entries_view(r.entries@) =~= Seq::empty());
        r
    }

    /// The value of `name`, if it is set.
    pub fn get(&self, name: &str) -> (r: Option<usize>)
        ensures
            r == (if self@.contains_key(name@) { Some(self@[name@]) } else { None::<usize> }),
    {
        let ghost s = entries_view(self.entries@);
        let mut i: usize = self.entries.len();
        assert(s.subrange(0, s.len() as int) =~= s);
        while i > 0
            invariant
                0 <= i <= self.entries@.len(),
                s == entries_view(self.entries@),
                map_of(s).contains_key(name@) == map_of(s.subrange(0, i as int)).contains_key(name@),
                map_of(s).contains_key(name@) ==> map_of(s)[name@] == map_of(s.subrange(0, i as int))[name@],
            decreases i,
        {
            let e = &self.entries[i - 1];
            proof {
                lemma_map_of_prefix(s, i - 1);
            }
            if str_eq(e.0.as_str(), name) {
                return Some(e.1);
            }
            i = i - 1;
        }
        assert(s.subrange(0, 0) =~= Seq::empty());
        None
    }

    /// Whether no parameter is set.
    pub fn is_empty(&self) -> (r: bool)
        ensures
            r == (self@.dom() =~= Set::<Seq<char>>::empty()),
    {
        proof {
            lemma_map_of_empty(entries_view(self.entries@));
        }
        self.entries.len() == 0
    }

    /// Removes `name`, returning the value it had.
    pub fn remove(&mut self, name: &str) -> (r: Option<usize>)
        ensures
            r == (if old(self)@.contains_key(name@) { Some(old(self)@[name@]) } else { None::<usize> }),
            final(self)@ == old(self)@.remove(name@),
    {
        let r = self.get(name);
        let ghost s = entries_view(self.entries@);
        let mut kept: Vec<(String, usize)> = Vec::new();
        let mut i: usize = 0;
        while i < self.entries.len()
            invariant
                0 <= i <= self.entries@.len(),
                s == entries_view(self.entries@),
                map_of(entries_view(kept@)) == map_of(s.subrange(0, i as int)).remove(name@),
            decreases self.entries@.len() - i,
        {
            let e = &self.entries[i];
            proof {
                lemma_map_of_prefix(s, i as int);
            }
            if !str_eq(e.0.as_str(), name) {
                let ghost before = kept@;
                kept.push((e.0.clone(), e.1));
                proof {
                    assert(entries_view(kept@).drop_last() =~= entries_view(before));
                    assert(map_of(entries_view(kept@)) =~= map_of(s.subrange(0, i as int + 1)).remove(name@));
                }
            } else {
                assert(map_of(entries_view(kept@)) =~= map_of(s.subrange(0, i as int + 1)).remove(name@));
            }
            i = i + 1;
        }
        assert(s.subrange(0, s.len() as int) =~= s);
        self.entries = kept;
        r
    }

    /// Sets `name` to `value`, replacing any value it had.
    pub fn insert(&mut self, name: String, value: usize)
        ensures
            final(self)@ == old(self)@.insert(name@, value),
    {
        self.remove(name.as_str());
        let ghost before = self.entries@;
        self.entries.push((name, value));
        assert(entries_view(self.entries@).drop_last() =~= entries_view(before));
        assert(self@ =~= old(self)@.insert(name@, value));
    }
}

/// Whether `s` is a non-empty run of ASCII digits.
pub open spec fn is_decimal(s: Seq<char>) -> bool {
    s.len() > 0 && forall|i: int| 0 <= i < s.len() ==> '0' <= #[trigger] s[i] <= '9'
}

/// The number that a run of ASCII digits writes in base ten.
pub open spec fn decimal_value(s: Seq<char>) -> nat
    decreases s.len(),
{
    if s.len() == 0 {
        0
    } else {
        decimal_value(s.drop_last()) * 10 + (s.last() as u32 - 48) as nat
    }
}

proof fn lemma_decimal_grows(s: Seq<char>, j: int)
    requires
        0 <= j <= s.len(),
        forall|i: int| 0 <= i < s.len() ==> '0' <= #[trigger] s[i] <= '9',
    ensures
        decimal_value(s.take(j)) <= decimal_value(s),
    decreases s.len() - j,
{
    if j < s.len() {
        lemma_decimal_grows(s, j + 1);
        assert(s.take(j + 1).drop_last() =~= s.take(j));
    } else {
        assert(s.take(j) =~= s);
    }
}

/// Reads a decimal number that fits in `usize`.
pub fn parse_decimal(s: &str) -> (r: Option<usize>)
    ensures
        r == (if is_decimal(s@) && decimal_value(s@) <= usize::MAX {
            Some(decimal_value(s@) as usize)
        } else {
            None::<usize>
        }),
{
    let n = s.unicode_len();
    if n == 0 {
        return None;
    }
    let mut acc: usize = 0;
    let mut i: usize = 0;
    assert(s@.take(0) =~= Seq::<char>::empty());
    while i < n
        invariant
            n == s@.len(),
            i <= n,
            forall|j: int| 0 <= j < i ==> '0' <= #[trigger] s@[j] <= '9',
            acc == decimal_value(s@.take(i as int)),
        decreases n - i,
    {
        let c = s.get_char(i);
        assert(s@.take(i as int + 1).drop_last() =~= s@.take(i as int));
        if c < '0' || c > '9' {
            return None;
        }
        let d = (c as u32 - 48) as usize;
        if acc > (usize::MAX - d) / 10 {
            proof {
                assert(acc * 10 + d > usize::MAX) by (nonlinear_arith)
                    requires
                        acc > (usize::MAX - d) / 10,
                        d <= 9,
                ;
                if is_decimal(s@) {
                    lemma_decimal_grows(s@, i as int + 1);
                }
            }
            return None;
        }
        acc = acc * 10 + d;
        i = i + 1;
    }
    assert(s@.take(n as int) =~= s@);
    Some(acc)
}

/// Whether `piece` is `name=value` with a decimal `value` that fits in
/// `usize`.
pub open spec fn is_param_text(piece: Seq<char>, name: Seq<char>, value: usize) -> bool {
    exists|v: Seq<char>|
        is_key_pair(piece, name, v) && is_decimal(v) && decimal_value(v) == value as nat
}

/// The parameters that the comma-separated `name=value` pieces of
/// `pieces` set, a later piece overriding an earlier one.
pub open spec fn params_of_pieces(pieces: Seq<Seq<char>>, names: Seq<Seq<char>>, values: Seq<usize>) -> Map<Seq<char>, usize>
    decreases pieces.len(),
{
    if pieces.len() == 0 || names.len() != pieces.len() || values.len() != pieces.len() {
        Map::empty()
    } else {
        params_of_pieces(pieces.drop_last(), names.drop_last(), values.drop_last()).insert(names.last(), values.last())
    }
}

/// Whether the `name=value` pieces of `pieces` set the parameters `m`.
pub open spec fn parses_to(pieces: Seq<Seq<char>>, m: Map<Seq<char>, usize>) -> bool {
    exists|names: Seq<Seq<char>>, values: Seq<usize>|
        names.len() == pieces.len() && values.len() == pieces.len() && (forall|k: int|
            0 <= k < pieces.len() ==> is_param_text(pieces[k], names[k], values[k])) && m
            == params_of_pieces(pieces, names, values)
}

/// Whether some piece of `pieces` is not `name=value`.
pub open spec fn has_malformed_piece(pieces: Seq<Seq<char>>) -> bool {
    exists|k: int|
        0 <= k < pieces.len() && forall|name: Seq<char>, value: usize|
            !is_param_text(#[trigger] pieces[k], name, value)
}

impl PbkdfParams {
    /// Reads parameters written `name=value[,name=value...]`, as in
    /// `i=1000` or `m=65536,t=3,p=1`. A later name overrides an earlier one.
    pub fn parse(text: &str) -> (r: Result<PbkdfParams, &'static str>)
        ensures
            ({
                let pieces = split_spec(text@, ',');
                match r {
                    Ok(p) => parses_to(pieces, p@),
                    Err(e) => e == "Malformed PBKDF parameters" && has_malformed_piece(pieces),
                }
            }),
    {
        let pieces = split_list(text);
        let ghost ps = split_spec(text@, ',');
        let ghost mut names: Seq<Seq<char>> = Seq::empty();
        let ghost mut values: Seq<usize> = Seq::empty();
        let mut params = PbkdfParams::new();
        let mut k: usize = 0;
        while k < pieces.len()
            invariant
                views_of(pieces@) == ps,
                ps == split_spec(text@, ','),
                k <= pieces@.len(),
                names.len() == k,
                values.len() == k,
                forall|j: int| 0 <= j < k ==> is_param_text(ps[j], names[j], values[j]),
                params@ == params_of_pieces(ps.take(k as int), names, values),
            decreases pieces@.len() - k,
        {
            assert(ps[k as int] == pieces@[k as int]@);
            assert(ps.take(k as int + 1).drop_last() =~= ps.take(k as int));
            match parse_key_pair(pieces[k].as_str()) {
                Some((name, v)) => {
                    match parse_decimal(v.as_str()) {
                        Some(value) => {
                            let ghost before_names = names;
                            let ghost before_values = values;
                            proof {
                                names = names.push(name@);
                                values = values.push(value);
                                assert(is_param_text(ps[k as int], name@, value));
                                assert(names.drop_last() =~= before_names);
                                assert(values.drop_last() =~= before_values);
                            }
                            params.insert(name, value);
                            assert(params@ == params_of_pieces(ps.take(k as int + 1), names, values));
                        },
                        None => {
                            proof {
                                assert forall|nm: Seq<char>, val: usize| !is_param_text(ps[k as int], nm, val) by {
                                    if is_param_text(ps[k as int], nm, val) {
                                        let w = choose|w: Seq<char>| is_key_pair(ps[k as int], nm, w) && is_decimal(w)
                                            && decimal_value(w) == val as nat;
                                        lemma_key_pair_unique(ps[k as int], name@, v@, nm, w);
                                    }
                                }
                            }
                            return Err("Malformed PBKDF parameters");
                        },
                    }
                },
                None => {
                    proof {
                        assert forall|nm: Seq<char>, val: usize| !is_param_text(ps[k as int], nm, val) by {
                            if is_param_text(ps[k as int], nm, val) {
                                let w = choose|w: Seq<char>| is_key_pair(ps[k as int], nm, w) && is_decimal(w)
                                    && decimal_value(w) == val as nat;
                                assert(has_key_pair(ps[k as int]));
                            }
                        }
                    }
                    return Err("Malformed PBKDF parameters");
                },
            }
            k = k + 1;
        }
        assert(ps.take(ps.len() as int) =~= ps);
        Ok(params)
    }
}

/// A text splits into `WORD=PASSWORD` in at most one way.
pub proof fn lemma_key_pair_unique(v: Seq<char>, w1: Seq<char>, x1: Seq<char>, w2: Seq<char>, x2: Seq<char>)
    requires
        is_key_pair(v, w1, x1),
        is_key_pair(v, w2, x2),
    ensures
        w1 == w2 && x1 == x2,
{
    assert(v[w1.len() as int] == '=');
    assert(v[w2.len() as int] == '=');
    if w1.len() < w2.len() {
        assert(w2[w1.len() as int] == '=');
        assert(w2.contains('='));
    } else if w2.len() < w1.len() {
        assert(w1[w2.len() as int] == '=');
        assert(w1.contains('='));
    }
    assert(w1 =~= v.take(w1.len() as int));
    assert(w2 =~= v.take(w2.len() as int));
    assert(x1 =~= v.skip(w1.len() as int + 1));
    assert(x2 =~= v.skip(w2.len() as int + 1));
}

} // verus!
