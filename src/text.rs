//! Small verified helpers on strings.
use vstd::prelude::*;

verus! {

/// Compares two strings character by character.
pub fn str_eq(a: &str, b: &str) -> (r: bool)
    ensures
        r == (a@ == b@),
{
    let sa = String::from_str(a);
    let sb = String::from_str(b);
    sa == sb
}

/// Whether `s` begins with `prefix`.
pub fn has_prefix(s: &str, prefix: &str) -> (r: bool)
    ensures
        r == (prefix@.len() <= s@.len() && s@.subrange(0, prefix@.len() as int) == prefix@),
{
    let n = s.unicode_len();
    let m = prefix.unicode_len();
    if m > n {
        return false;
    }
    let head = s.substring_char(0, m);
    str_eq(head, prefix)
}

/// Whether `s` ends with `suffix`.
pub fn has_suffix(s: &str, suffix: &str) -> (r: bool)
    ensures
        r == (suffix@.len() <= s@.len() && s@.subrange(s@.len() - suffix@.len(), s@.len() as int)
            == suffix@),
{
    let n = s.unicode_len();
    let m = suffix.unicode_len();
    if m > n {
        return false;
    }
    let tail = s.substring_char(n - m, n);
    str_eq(tail, suffix)
}

/// The pieces of `s` between occurrences of `sep`, in order; `s` without
/// `sep` is one piece.
pub open spec fn split_spec(s: Seq<char>, sep: char) -> Seq<Seq<char>>
    decreases s.len(),
{
    if s.len() == 0 {
        seq![Seq::empty()]
    } else {
        let prev = split_spec(s.drop_last(), sep);
        if s.last() == sep {
            prev.push(Seq::empty())
        } else {
            prev.update(prev.len() - 1, prev.last().push(s.last()))
        }
    }
}

proof fn lemma_split_nonempty(s: Seq<char>, sep: char)
    ensures
        split_spec(s, sep).len() >= 1,
    decreases s.len(),
{
    if s.len() > 0 {
        lemma_split_nonempty(s.drop_last(), sep);
    }
}

/// The views of a list of strings.
pub open spec fn views_of(v: Seq<String>) -> Seq<Seq<char>> {
    v.map_values(|x: String| x@)
}

/// Splits `arg` at each `sep`.
pub fn split_on(arg: &str, sep: char) -> (r: Vec<String>)
    ensures
        views_of(r@) == split_spec(arg@, sep),
{
    let n = arg.unicode_len();
    let mut pieces: Vec<String> = Vec::new();
    let mut start: usize = 0;
    let mut i: usize = 0;
    assert(arg@.take(0) =~= Seq::<char>::empty());
    while i < n
        invariant
            n == arg@.len(),
            start <= i <= n,
            views_of(pieces@).push(arg@.subrange(start as int, i as int)) == split_spec(
                arg@.take(i as int),
                sep,
            ),
        decreases n - i,
    {
        let c = arg.get_char(i);
        let ghost t = arg@.take(i as int + 1);
        assert(t.drop_last() =~= arg@.take(i as int));
        assert(t.last() == c);
        proof {
            lemma_split_nonempty(arg@.take(i as int), sep);
        }
        if c == sep {
            let ghost before = pieces@;
            pieces.push(String::from_str(arg.substring_char(start, i)));
            assert(views_of(pieces@) =~= views_of(before).push(arg@.subrange(start as int, i as int)));
            start = i + 1;
            let ghost prev = split_spec(arg@.take(i as int), sep);
            assert(split_spec(t, sep) == prev.push(Seq::<char>::empty()));
            assert(arg@.subrange(start as int, i as int + 1) =~= Seq::<char>::empty());
            assert(views_of(pieces@).push(arg@.subrange(start as int, i as int + 1)) =~= split_spec(t, sep));
        } else {
            let ghost prev = split_spec(arg@.take(i as int), sep);
            assert(split_spec(t, sep) == prev.update(prev.len() - 1, prev.last().push(c)));
            assert(prev.last() == arg@.subrange(start as int, i as int));
            assert(arg@.subrange(start as int, i as int + 1) =~= arg@.subrange(start as int, i as int).push(c));
            assert(views_of(pieces@).push(arg@.subrange(start as int, i as int + 1)) =~= split_spec(t, sep));
        }
        i = i + 1;
    }
    assert(arg@.take(n as int) =~= arg@);
    let ghost before = pieces@;
    pieces.push(String::from_str(arg.substring_char(start, n)));
    assert(views_of(pieces@) =~= views_of(before).push(arg@.subrange(start as int, n as int)));
    pieces
}

/// `pieces` written one after another with `sep` between neighbours.
pub open spec fn join(pieces: Seq<Seq<char>>, sep: char) -> Seq<char>
    decreases pieces.len(),
{
    if pieces.len() == 0 {
        Seq::empty()
    } else if pieces.len() == 1 {
        pieces[0]
    } else {
        join(pieces.drop_last(), sep) + seq![sep] + pieces.last()
    }
}

/// Splitting at `sep` and joining with `sep` gives back the text.
pub proof fn lemma_join_split(s: Seq<char>, sep: char)
    ensures
        join(split_spec(s, sep), sep) == s,
    decreases s.len(),
{
    if s.len() > 0 {
        let prev = split_spec(s.drop_last(), sep);
        lemma_join_split(s.drop_last(), sep);
        lemma_split_nonempty(s.drop_last(), sep);
        if s.last() == sep {
            assert(prev.push(Seq::empty()).drop_last() =~= prev);
            assert(join(prev, sep) + seq![sep] + Seq::<char>::empty() =~= s);
        } else {
            let up = prev.update(prev.len() - 1, prev.last().push(s.last()));
            if prev.len() == 1 {
                assert(s.drop_last() == prev[0]);
                assert(up[0] =~= s);
            } else {
                assert(up.drop_last() =~= prev.drop_last());
                assert(join(prev.drop_last(), sep) + seq![sep] + prev.last().push(s.last()) =~= join(
                    prev.drop_last(),
                    sep,
                ) + seq![sep] + prev.last() + seq![s.last()]);
                assert(s =~= s.drop_last() + seq![s.last()]);
            }
        }
    }
}

/// Text without `sep` is one piece.
pub proof fn lemma_split_no_sep(s: Seq<char>, sep: char)
    requires
        !s.contains(sep),
    ensures
        split_spec(s, sep) == seq![s],
    decreases s.len(),
{
    if s.len() > 0 {
        assert(!s.drop_last().contains(sep)) by {
            if s.drop_last().contains(sep) {
                let i = choose|i: int| 0 <= i < s.drop_last().len() && s.drop_last()[i] == sep;
                assert(s[i] == sep);
            }
        }
        lemma_split_no_sep(s.drop_last(), sep);
        assert(s.last() != sep) by {
            assert(s[s.len() - 1] == s.last());
        }
        assert(s.drop_last().push(s.last()) =~= s);
        assert(seq![s.drop_last()].update(0, s.drop_last().push(s.last())) =~= seq![s]);
    } else {
        assert(s =~= Seq::<char>::empty());
    }
}

/// Appending `sep` and a piece without `sep` appends that piece.
pub proof fn lemma_split_append(a: Seq<char>, b: Seq<char>, sep: char)
    requires
        !b.contains(sep),
    ensures
        split_spec(a + seq![sep] + b, sep) == split_spec(a, sep).push(b),
    decreases b.len(),
{
    let s = a + seq![sep] + b;
    if b.len() == 0 {
        assert(s.drop_last() =~= a);
        assert(b =~= Seq::<char>::empty());
    } else {
        assert(!b.drop_last().contains(sep)) by {
            if b.drop_last().contains(sep) {
                let i = choose|i: int| 0 <= i < b.drop_last().len() && b.drop_last()[i] == sep;
                assert(b[i] == sep);
            }
        }
        lemma_split_append(a, b.drop_last(), sep);
        assert(s.drop_last() =~= a + seq![sep] + b.drop_last());
        assert(s.last() == b.last());
        assert(b.last() != sep) by {
            assert(b[b.len() - 1] == b.last());
        }
        assert(b.drop_last().push(b.last()) =~= b);
        assert(split_spec(a, sep).push(b.drop_last()).update(
            split_spec(a, sep).len() as int,
            b.drop_last().push(b.last()),
        ) =~= split_spec(a, sep).push(b));
        assert(b.drop_last().push(b.last()) =~= b);
    }
}

/// Joining pieces that hold no `sep` with `sep` and splitting at `sep`
/// gives the pieces back.
pub proof fn lemma_split_join(ps: Seq<Seq<char>>, sep: char)
    requires
        ps.len() >= 1,
        forall|i: int| 0 <= i < ps.len() ==> !(#[trigger] ps[i]).contains(sep),
    ensures
        split_spec(join(ps, sep), sep) == ps,
    decreases ps.len(),
{
    if ps.len() == 1 {
        lemma_split_no_sep(ps[0], sep);
        assert(seq![ps[0]] =~= ps);
    } else {
        let q = ps.drop_last();
        assert forall|i: int| 0 <= i < q.len() implies !(#[trigger] q[i]).contains(sep) by {
            assert(q[i] == ps[i]);
        }
        lemma_split_join(q, sep);
        assert(!ps[ps.len() - 1].contains(sep));
        lemma_split_append(join(q, sep), ps.last(), sep);
        assert(q.push(ps.last()) =~= ps);
    }
}

/// A character that neither part holds is not in the whole.
pub proof fn lemma_concat_lacks(a: Seq<char>, b: Seq<char>, c: char)
    requires
        !a.contains(c),
        !b.contains(c),
    ensures
        !(a + b).contains(c),
{
    if (a + b).contains(c) {
        let i = choose|i: int| 0 <= i < (a + b).len() && (a + b)[i] == c;
        if i < a.len() {
            assert(a[i] == c);
        } else {
            assert(b[i - a.len()] == c);
        }
    }
}

/// Joining pieces that lack `c` with another separator gives text without `c`.
pub proof fn lemma_join_lacks(ps: Seq<Seq<char>>, sep: char, c: char)
    requires
        sep != c,
        forall|i: int| 0 <= i < ps.len() ==> !(#[trigger] ps[i]).contains(c),
    ensures
        !join(ps, sep).contains(c),
    decreases ps.len(),
{
    if ps.len() == 0 {
    } else if ps.len() == 1 {
        assert(!ps[0].contains(c));
    } else {
        let q = ps.drop_last();
        assert forall|i: int| 0 <= i < q.len() implies !(#[trigger] q[i]).contains(c) by {
            assert(q[i] == ps[i]);
        }
        lemma_join_lacks(q, sep, c);
        assert(!seq![sep].contains(c)) by {
            if seq![sep].contains(c) {
                assert(seq![sep][0] == sep);
            }
        }
        lemma_concat_lacks(join(q, sep), seq![sep], c);
        assert(!ps[ps.len() - 1].contains(c));
        lemma_concat_lacks(join(q, sep) + seq![sep], ps.last(), c);
    }
}

} // verus!
