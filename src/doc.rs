//! Documents as trees of blocks: literal lines, and named regions between
//! `BEGIN` and `END` marker lines.
use vstd::prelude::*;
use crate::text::{
    has_prefix, has_suffix, join, lemma_join_split, lemma_split_join, split_on, split_spec, str_eq,
    views_of,
};

verus! {

/// A region of a document: its opening marker line, the marker's name and
/// directive words, the blocks inside, and its closing marker line.
#[derive(Debug)]
pub struct Region {
    pub name: String,
    pub directives: Vec<String>,
    pub opener: String,
    pub children: Vec<Block>,
    pub closer: String,
}

/// A block of a document.
#[derive(Debug)]
pub enum Block {
    /// A line that is not a marker, kept as it stands.
    Text(String),
    /// A named region.
    Region(Region),
}

/// The lines written one after another.
pub open spec fn concat(lines: Seq<Seq<char>>) -> Seq<char>
    decreases lines.len(),
{
    if lines.len() == 0 {
        Seq::empty()
    } else {
        concat(lines.drop_last()) + lines.last()
    }
}

/// The text that a block stands for.
pub open spec fn block_text(b: Block) -> Seq<char>
    decreases b,
{
    match b {
        Block::Text(s) => s@,
        Block::Region(r) => r.opener@ + blocks_text(r.children@) + r.closer@,
    }
}

/// The text that a sequence of blocks stands for.
pub open spec fn blocks_text(bs: Seq<Block>) -> Seq<char>
    decreases bs,
{
    if bs.len() == 0 {
        Seq::empty()
    } else {
        blocks_text(bs.drop_last()) + block_text(bs.last())
    }
}

/// Writes a block out.
pub fn block_to_string(b: &Block) -> (r: String)
    ensures
        r@ == block_text(*b),
    decreases b,
{
    match b {
        Block::Text(s) => s.clone(),
        Block::Region(reg) => {
            let mut out = reg.opener.clone();
            let inner = blocks_to_string(&reg.children);
            out.append(inner.as_str());
            out.append(reg.closer.as_str());
            out
        },
    }
}

/// Writes blocks out, one after another.
pub fn blocks_to_string(bs: &Vec<Block>) -> (r: String)
    ensures
        r@ == blocks_text(bs@),
    decreases bs,
{
    let mut out = String::new();
    let mut i: usize = 0;
    assert(bs@.take(0) =~= Seq::<Block>::empty());
    while i < bs.len()
        invariant
            i <= bs@.len(),
            out@ == blocks_text(bs@.take(i as int)),
        decreases bs@.len() - i,
    {
        assert(bs@.take(i as int + 1).drop_last() =~= bs@.take(i as int));
        let s = block_to_string(&bs[i]);
        out.append(s.as_str());
        i = i + 1;
    }
    assert(bs@.take(bs@.len() as int) =~= bs@);
    out
}

/// Blank characters that may stand before a marker.
pub open spec fn is_blank(c: char) -> bool {
    c == ' ' || c == '\t'
}

/// A line without its line ending (`\n` or `\r\n`).
pub open spec fn line_body(line: Seq<char>) -> Seq<char> {
    let a = if line.len() > 0 && line.last() == '\n' {
        line.drop_last()
    } else {
        line
    };
    if a.len() > 0 && a.last() == '\r' {
        a.drop_last()
    } else {
        a
    }
}

/// How many blank characters `s` begins with.
pub open spec fn blank_prefix_len(s: Seq<char>) -> nat
    decreases s.len(),
{
    if s.len() > 0 && is_blank(s[0]) {
        1 + blank_prefix_len(s.drop_first())
    } else {
        0
    }
}

/// What stands between the separators of a marker line, if `line` is
/// blanks, `left`, that text and `right`, and the text begins and ends
/// with a space.
pub open spec fn marker_inner(line: Seq<char>, left: Seq<char>, right: Seq<char>) -> Option<
    Seq<char>,
> {
    let body = line_body(line);
    let rest = body.skip(blank_prefix_len(body) as int);
    if left.len() + right.len() <= rest.len() && rest.take(left.len() as int) == left && rest.skip(
        rest.len() - right.len(),
    ) == right {
        let inner = rest.subrange(left.len() as int, rest.len() - right.len());
        if inner.len() >= 2 && inner[0] == ' ' && inner.last() == ' ' {
            Some(inner)
        } else {
            None
        }
    } else {
        None
    }
}

/// The non-empty pieces of a list of pieces.
pub open spec fn nonempty_words(pieces: Seq<Seq<char>>) -> Seq<Seq<char>>
    decreases pieces.len(),
{
    if pieces.len() == 0 {
        Seq::empty()
    } else {
        let p = nonempty_words(pieces.drop_last());
        if pieces.last().len() > 0 {
            p.push(pieces.last())
        } else {
            p
        }
    }
}

/// The words of a text, separated by runs of spaces.
pub open spec fn words(s: Seq<char>) -> Seq<Seq<char>> {
    nonempty_words(split_spec(s, ' '))
}

/// Characters of a region name.
pub open spec fn is_ident_char(c: char) -> bool {
    ('a' <= c && c <= 'z') || ('A' <= c && c <= 'Z') || ('0' <= c && c <= '9') || c == '_'
}

/// Whether `s` is a region name: letters, digits and `_`, at least one.
pub open spec fn is_ident(s: Seq<char>) -> bool {
    s.len() > 0 && forall|i: int| 0 <= i < s.len() ==> is_ident_char(#[trigger] s[i])
}

/// The words of `line` if it opens a region: `BEGIN`, a name, directives.
pub open spec fn begin_words(line: Seq<char>, left: Seq<char>, right: Seq<char>) -> Option<
    Seq<Seq<char>>,
> {
    match marker_inner(line, left, right) {
        Some(inner) => {
            let w = words(inner);
            if w.len() >= 2 && w[0] == "BEGIN"@ && is_ident(w[1]) {
                Some(w)
            } else {
                None
            }
        },
        None => None,
    }
}

/// The name of the region that `line` closes, if it is `END` and a name.
pub open spec fn end_name(line: Seq<char>, left: Seq<char>, right: Seq<char>) -> Option<Seq<char>> {
    match marker_inner(line, left, right) {
        Some(inner) => {
            let w = words(inner);
            if w.len() == 2 && w[0] == "END"@ && is_ident(w[1]) {
                Some(w[1])
            } else {
                None
            }
        },
        None => None,
    }
}

/// What a line of a document is.
pub enum Marker {
    /// It opens the region `name`, with these directive words.
    Begin { name: String, directives: Vec<String> },
    /// It closes the region `name`.
    End { name: String },
    /// It is literal text.
    NotMarker,
}

/// The line without its line ending.
fn strip_line_end(line: &str) -> (r: &str)
    ensures
        r@ == line_body(line@),
{
    let mut n = line.unicode_len();
    if n > 0 && line.get_char(n - 1) == '\n' {
        n = n - 1;
    }
    if n > 0 && line.get_char(n - 1) == '\r' {
        n = n - 1;
    }
    let r = line.substring_char(0, n);
    proof {
        let s = line@;
        let a = if s.len() > 0 && s.last() == '\n' { s.drop_last() } else { s };
        assert(a =~= s.subrange(0, a.len() as int));
        if a.len() > 0 && a.last() == '\r' {
            assert(a.drop_last() =~= s.subrange(0, a.len() - 1));
        }
    }
    r
}

/// Counts the blanks that `s` begins with.
pub fn blank_prefix(s: &str) -> (r: usize)
    ensures
        r == blank_prefix_len(s@),
        r <= s@.len(),
{
    let n = s.unicode_len();
    let mut i: usize = 0;
    assert(s@.skip(0) =~= s@);
    while i < n
        invariant
            n == s@.len(),
            i <= n,
            blank_prefix_len(s@) == i + blank_prefix_len(s@.skip(i as int)),
        decreases n - i,
    {
        let c = s.get_char(i);
        if c != ' ' && c != '\t' {
            return i;
        }
        assert(s@.skip(i as int).drop_first() =~= s@.skip(i as int + 1));
        i = i + 1;
    }
    i
}

/// Whether `s` is a region name.
fn check_ident(s: &str) -> (r: bool)
    ensures
        r == is_ident(s@),
{
    let n = s.unicode_len();
    if n == 0 {
        return false;
    }
    let mut i: usize = 0;
    while i < n
        invariant
            n == s@.len(),
            i <= n,
            forall|j: int| 0 <= j < i ==> is_ident_char(#[trigger] s@[j]),
        decreases n - i,
    {
        let c = s.get_char(i);
        if !(('a' <= c && c <= 'z') || ('A' <= c && c <= 'Z') || ('0' <= c && c <= '9') || c == '_') {
            return false;
        }
        i = i + 1;
    }
    true
}

/// The words of `s`.
fn split_words(s: &str) -> (r: Vec<String>)
    ensures
        views_of(r@) == words(s@),
{
    let pieces = split_on(s, ' ');
    let ghost ps = views_of(pieces@);
    let mut out: Vec<String> = Vec::new();
    let mut k: usize = 0;
    assert(ps.take(0) =~= Seq::<Seq<char>>::empty());
    while k < pieces.len()
        invariant
            ps == views_of(pieces@),
            k <= pieces@.len(),
            views_of(out@) == nonempty_words(ps.take(k as int)),
        decreases pieces@.len() - k,
    {
        assert(ps.take(k as int + 1).drop_last() =~= ps.take(k as int));
        assert(ps[k as int] == pieces@[k as int]@);
        if pieces[k].unicode_len() > 0 {
            let ghost before = out@;
            out.push(pieces[k].clone());
            assert(views_of(out@) =~= views_of(before).push(pieces@[k as int]@));
        }
        assert(ps.take(k as int + 1).last() == ps[k as int]);
        assert(nonempty_words(ps.take(k as int + 1)) == (if ps[k as int].len() > 0 {
            nonempty_words(ps.take(k as int)).push(ps[k as int])
        } else {
            nonempty_words(ps.take(k as int))
        }));
        k = k + 1;
    }
    assert(ps.take(ps.len() as int) =~= ps);
    out
}

/// The words between the separators of a marker line.
fn split_marker(line: &str, left: &str, right: &str) -> (r: Option<Vec<String>>)
    ensures
        match marker_inner(line@, left@, right@) {
            Some(inner) => r is Some && views_of(r->Some_0@) == words(inner),
            None => r is None,
        },
{
    let body = strip_line_end(line);
    let blanks = blank_prefix(body);
    let rest = body.substring_char(blanks, body.unicode_len());
    assert(rest@ == body@.skip(blanks as int));
    let l = left.unicode_len();
    let r = right.unicode_len();
    let n = rest.unicode_len();
    if l > n || r > n - l || !has_prefix(rest, left) || !has_suffix(rest, right) {
        return None;
    }
    assert(rest@.take(l as int) == rest@.subrange(0, l as int));
    assert(rest@.skip(n - r) == rest@.subrange(n - r, n as int));
    let inner = rest.substring_char(l, n - r);
    let m = inner.unicode_len();
    if m < 2 || inner.get_char(0) != ' ' || inner.get_char(m - 1) != ' ' {
        return None;
    }
    Some(split_words(inner))
}

/// What `line` is, with `left` and `right` as marker separators.
pub fn classify_line(line: &str, left: &str, right: &str) -> (m: Marker)
    ensures
        match m {
            Marker::Begin { name, directives } => begin_words(line@, left@, right@) is Some && name@
                == begin_words(line@, left@, right@)->Some_0[1] && views_of(directives@)
                == begin_words(line@, left@, right@)->Some_0.skip(2),
            Marker::End { name } => begin_words(line@, left@, right@) is None && end_name(
                line@,
                left@,
                right@,
            ) == Some(name@),
            Marker::NotMarker => begin_words(line@, left@, right@) is None && end_name(
                line@,
                left@,
                right@,
            ) is None,
        },
{
    proof {
        reveal_strlit("BEGIN");
        reveal_strlit("END");
        assert("BEGIN"@.len() == 5 && "END"@.len() == 3);
    }
    let w = match split_marker(line, left, right) {
        Some(w) => w,
        None => {
            return Marker::NotMarker;
        },
    };
    if w.len() < 2 || !check_ident(w[1].as_str()) {
        return Marker::NotMarker;
    }
    assert(views_of(w@)[0] == w@[0]@ && views_of(w@)[1] == w@[1]@);
    if str_eq(w[0].as_str(), "BEGIN") {
        let mut directives: Vec<String> = Vec::new();
        let mut k: usize = 2;
        while k < w.len()
            invariant
                2 <= k <= w@.len(),
                views_of(directives@) == views_of(w@).subrange(2, k as int),
            decreases w@.len() - k,
        {
            let ghost before = directives@;
            directives.push(w[k].clone());
            assert(views_of(directives@) =~= views_of(before).push(w@[k as int]@));
            assert(views_of(directives@) =~= views_of(w@).subrange(2, k as int + 1));
            k = k + 1;
        }
        assert(views_of(w@).subrange(2, w@.len() as int) =~= views_of(w@).skip(2));
        return Marker::Begin { name: w[1].clone(), directives };
    }
    if w.len() == 2 && str_eq(w[0].as_str(), "END") {
        return Marker::End { name: w[1].clone() };
    }
    Marker::NotMarker
}

/// Whether lines `i..` of `ls` nest properly when the regions named on
/// `stack` (innermost last) are open: each `BEGIN` opens a region and names
/// no directive key twice, each `END` closes the innermost one by its name,
/// and none is left open.
pub open spec fn nests(ls: Seq<Seq<char>>, left: Seq<char>, right: Seq<char>, i: int, stack: Seq<
    Seq<char>,
>) -> bool
    decreases ls.len() - i,
{
    if i < 0 || i >= ls.len() {
        stack.len() == 0
    } else {
        match begin_words(ls[i], left, right) {
            Some(w) => keys_distinct(w.skip(2)) && nests(ls, left, right, i + 1, stack.push(w[1])),
            None => match end_name(ls[i], left, right) {
                Some(n) => stack.len() > 0 && stack.last() == n && nests(
                    ls,
                    left,
                    right,
                    i + 1,
                    stack.drop_last(),
                ),
                None => nests(ls, left, right, i + 1, stack),
            },
        }
    }
}

/// The key of a directive word: what stands before its first `:`.
pub open spec fn directive_key(d: Seq<char>) -> Seq<char>
    decreases d.len(),
{
    if d.len() == 0 || d[0] == ':' {
        Seq::empty()
    } else {
        seq![d[0]] + directive_key(d.drop_first())
    }
}

/// Whether no two directive words have the same key.
pub open spec fn keys_distinct(ds: Seq<Seq<char>>) -> bool {
    forall|i: int, j: int| 0 <= i < j < ds.len() ==> directive_key(ds[i]) != directive_key(ds[j])
}

proof fn lemma_directive_key(d: Seq<char>, k: int)
    requires
        0 <= k <= d.len(),
        forall|j: int| 0 <= j < k ==> d[j] != ':',
        k == d.len() || d[k] == ':',
    ensures
        directive_key(d) == d.take(k),
    decreases k,
{
    if k > 0 {
        assert forall|j: int| 0 <= j < k - 1 implies d.drop_first()[j] != ':' by {
            assert(d.drop_first()[j] == d[j + 1]);
        }
        lemma_directive_key(d.drop_first(), k - 1);
        assert(d[0] != ':');
        assert(seq![d[0]] + d.drop_first().take(k - 1) =~= d.take(k));
    } else {
        assert(d.take(0) =~= Seq::<char>::empty());
    }
}

/// The key of a directive word.
pub fn key_of(d: &str) -> (r: String)
    ensures
        r@ == directive_key(d@),
{
    let n = d.unicode_len();
    let mut k: usize = 0;
    while k < n
        invariant
            n == d@.len(),
            k <= n,
            forall|j: int| 0 <= j < k ==> d@[j] != ':',
        ensures
            k <= n,
            forall|j: int| 0 <= j < k ==> d@[j] != ':',
            k == n || d@[k as int] == ':',
        decreases n - k,
    {
        if d.get_char(k) == ':' {
            break;
        }
        k = k + 1;
    }
    proof {
        lemma_directive_key(d@, k as int);
    }
    String::from_str(d.substring_char(0, k))
}

/// Whether no two of the directive words `ds` have the same key.
pub fn keys_are_distinct(ds: &Vec<String>) -> (r: bool)
    ensures
        r == keys_distinct(views_of(ds@)),
{
    let ghost v = views_of(ds@);
    let mut keys: Vec<String> = Vec::new();
    let mut i: usize = 0;
    while i < ds.len()
        invariant
            v == views_of(ds@),
            i <= ds@.len(),
            keys@.len() == i,
            forall|a: int| 0 <= a < i ==> (#[trigger] keys@[a])@ == directive_key(v[a]),
            forall|a: int, b: int| 0 <= a < b < i ==> directive_key(v[a]) != directive_key(v[b]),
        decreases ds@.len() - i,
    {
        assert(v[i as int] == ds@[i as int]@);
        let key = key_of(ds[i].as_str());
        let mut j: usize = 0;
        while j < i
            invariant
                v == views_of(ds@),
                i < ds@.len(),
                j <= i,
                keys@.len() == i,
                key@ == directive_key(v[i as int]),
                forall|a: int| 0 <= a < i ==> (#[trigger] keys@[a])@ == directive_key(v[a]),
                forall|a: int| 0 <= a < j ==> directive_key(v[a]) != directive_key(v[i as int]),
            decreases i - j,
        {
            if str_eq(keys[j].as_str(), key.as_str()) {
                assert(directive_key(v[j as int]) == directive_key(v[i as int]));
                return false;
            }
            j = j + 1;
        }
        keys.push(key);
        i = i + 1;
    }
    true
}

/// The open regions: those on `st`, then `open` if it names one.
pub open spec fn frame(open: Option<Seq<char>>, st: Seq<Seq<char>>) -> Seq<Seq<char>> {
    match open {
        Some(n) => st.push(n),
        None => st,
    }
}

/// How many lines a block covers: one for a text line; for a region, its
/// two marker lines and the lines of its blocks.
pub open spec fn block_span(b: Block) -> int
    decreases b,
{
    match b {
        Block::Text(_) => 1,
        Block::Region(r) => blocks_span(r.children@) + 2,
    }
}

/// How many lines a sequence of blocks covers.
pub open spec fn blocks_span(bs: Seq<Block>) -> int
    decreases bs,
{
    if bs.len() == 0 {
        0
    } else {
        blocks_span(bs.drop_last()) + block_span(bs.last())
    }
}

/// Whether `b` is the block that line `i` of `ls` begins: a line that is
/// no marker becomes a text block holding it; a line that opens a region
/// becomes a region with the marker's name and directive words, that line
/// as opener, the blocks of the following lines as children, and as closer
/// the line right after them, which closes a region of the same name.
pub open spec fn block_matches(b: Block, ls: Seq<Seq<char>>, left: Seq<char>, right: Seq<char>, i: int) -> bool
    decreases b,
{
    0 <= i < ls.len() && match b {
        Block::Text(s) => s@ == ls[i] && begin_words(ls[i], left, right) is None && end_name(
            ls[i],
            left,
            right,
        ) is None,
        Block::Region(reg) => {
            let w = begin_words(ls[i], left, right);
            let k = i + 1 + blocks_span(reg.children@);
            &&& w is Some
            &&& reg.name@ == w->Some_0[1]
            &&& views_of(reg.directives@) == w->Some_0.skip(2)
            &&& reg.opener@ == ls[i]
            &&& blocks_match(reg.children@, ls, left, right, i + 1)
            &&& k < ls.len()
            &&& reg.closer@ == ls[k]
            &&& end_name(ls[k], left, right) == Some(reg.name@)
        },
    }
}

/// Whether `bs` are the blocks of the lines of `ls` from `start` on, each
/// block beginning where the one before it ends.
pub open spec fn blocks_match(bs: Seq<Block>, ls: Seq<Seq<char>>, left: Seq<char>, right: Seq<char>, start: int) -> bool
    decreases bs,
{
    if bs.len() == 0 {
        true
    } else {
        blocks_match(bs.drop_last(), ls, left, right, start) && block_matches(
            bs.last(),
            ls,
            left,
            right,
            start + blocks_span(bs.drop_last()),
        )
    }
}

/// Whether `bs` is the tree of the lines `ls`: its blocks cover them all,
/// in order.
pub open spec fn is_tree_of(bs: Seq<Block>, ls: Seq<Seq<char>>, left: Seq<char>, right: Seq<char>) -> bool {
    blocks_match(bs, ls, left, right, 0) && blocks_span(bs) == ls.len()
}

proof fn lemma_concat_split(s: Seq<Seq<char>>, a: int, b: int, c: int)
    requires
        0 <= a <= b <= c <= s.len(),
    ensures
        concat(s.subrange(a, c)) == concat(s.subrange(a, b)) + concat(s.subrange(b, c)),
    decreases c - b,
{
    if b == c {
        assert(s.subrange(b, c) =~= Seq::<Seq<char>>::empty());
        assert(s.subrange(a, c) =~= s.subrange(a, b));
        assert(concat(s.subrange(a, b)) + Seq::<char>::empty() =~= concat(s.subrange(a, b)));
    } else {
        lemma_concat_split(s, a, b, c - 1);
        assert(s.subrange(a, c).drop_last() =~= s.subrange(a, c - 1));
        assert(s.subrange(b, c).drop_last() =~= s.subrange(b, c - 1));
        assert(concat(s.subrange(a, b)) + concat(s.subrange(b, c - 1)) + s[c - 1] =~= concat(
            s.subrange(a, b),
        ) + (concat(s.subrange(b, c - 1)) + s[c - 1]));
    }
}

proof fn lemma_region_concat(ls: Seq<Seq<char>>, start: int, i: int, k: int)
    requires
        0 <= start <= i < k < ls.len(),
    ensures
        concat(ls.subrange(start, k + 1)) == concat(ls.subrange(start, i)) + (ls[i] + concat(
            ls.subrange(i + 1, k),
        ) + ls[k]),
{
    lemma_concat_split(ls, start, i, k + 1);
    lemma_concat_split(ls, i, i + 1, k + 1);
    assert(ls.subrange(i, i + 1).drop_last() =~= Seq::<Seq<char>>::empty());
    assert(ls.subrange(i + 1, k + 1).drop_last() =~= ls.subrange(i + 1, k));
    assert(concat(Seq::<Seq<char>>::empty()) == Seq::<char>::empty());
    assert(ls.subrange(i, i + 1).last() == ls[i]);
    assert(ls.subrange(i + 1, k + 1).last() == ls[k]);
    assert(concat(ls.subrange(i, i + 1)) =~= ls[i]);
    assert(concat(ls.subrange(start, k + 1)) =~= concat(ls.subrange(start, i)) + (ls[i] + concat(
        ls.subrange(i + 1, k),
    ) + ls[k]));
}

/// Parses blocks from line `start` on, with the regions on `stk` open.
/// With `open` naming the innermost open region, it stops at the line that
/// closes it and returns that line's index; otherwise it runs to the end.
fn parse_blocks(
    lines: &Vec<String>,
    start: usize,
    open: Option<&str>,
    left: &str,
    right: &str,
    Ghost(stk): Ghost<Seq<Seq<char>>>,
) -> (r: Result<(Vec<Block>, usize), &'static str>)
    requires
        start <= lines@.len(),
        open is None ==> stk.len() == 0,
    ensures
        ({
            let ls = views_of(lines@);
            let ov = match open {
                Some(n) => Some(n@),
                None => None::<Seq<char>>,
            };
            match r {
                Ok((bs, end)) => start <= end <= lines@.len() && blocks_text(bs@) == concat(
                    ls.subrange(start as int, end as int),
                ) && match open {
                    Some(n) => end < lines@.len() && end_name(lines@[end as int]@, left@, right@)
                        == Some(n@) && nests(ls, left@, right@, start as int, stk.push(n@)) == nests(
                        ls,
                        left@,
                        right@,
                        end + 1,
                        stk,
                    ),
                    None => end == lines@.len() && nests(ls, left@, right@, start as int, stk),
                },
                Err(_) => !nests(ls, left@, right@, start as int, frame(ov, stk)),
            }
        }),
        r is Ok ==> blocks_match(r->Ok_0.0@, views_of(lines@), left@, right@, start as int)
            && start + blocks_span(r->Ok_0.0@) == r->Ok_0.1,
    decreases lines@.len() - start,
{
    let ghost ls = views_of(lines@);
    let ghost ov = match open {
        Some(n) => Some(n@),
        None => None::<Seq<char>>,
    };
    let ghost here = frame(ov, stk);
    let mut blocks: Vec<Block> = Vec::new();
    let mut i: usize = start;
    assert(ls.subrange(start as int, start as int) =~= Seq::<Seq<char>>::empty());
    while i < lines.len()
        invariant
            ls == views_of(lines@),
            start <= i <= lines@.len(),
            blocks_text(blocks@) == concat(ls.subrange(start as int, i as int)),
            blocks_match(blocks@, ls, left@, right@, start as int),
            start + blocks_span(blocks@) == i,
            ov == (match open {
                Some(n) => Some(n@),
                None => None::<Seq<char>>,
            }),
            here == frame(ov, stk),
            open is None ==> stk.len() == 0,
            nests(ls, left@, right@, start as int, here) == nests(ls, left@, right@, i as int, here),
        decreases lines@.len() - i,
    {
        let ghost before = blocks@;
        assert(ls[i as int] == lines@[i as int]@);
        match classify_line(lines[i].as_str(), left, right) {
            Marker::NotMarker => {
                blocks.push(Block::Text(lines[i].clone()));
                assert(blocks@.drop_last() =~= before);
                assert(ls.subrange(start as int, i as int + 1).drop_last() =~= ls.subrange(
                    start as int,
                    i as int,
                ));
                assert(ls.subrange(start as int, i as int + 1).last() == ls[i as int]);
                assert(blocks_text(blocks@) == blocks_text(before) + block_text(blocks@.last()));
                assert(nests(ls, left@, right@, i as int, here) == nests(ls, left@, right@, i as int + 1, here));
                assert(block_matches(blocks@.last(), ls, left@, right@, i as int));
                assert(blocks_match(blocks@, ls, left@, right@, start as int));
                assert(blocks_span(blocks@) == blocks_span(before) + block_span(blocks@.last()));
                i = i + 1;
            },
            Marker::Begin { name, directives } => {
                let ghost nm = name@;
                if !keys_are_distinct(&directives) {
                    assert(!nests(ls, left@, right@, i as int, here));
                    return Err("Duplicate directive key");
                }
                let sub = parse_blocks(lines, i + 1, Some(name.as_str()), left, right, Ghost(here));
                match sub {
                    Ok((children, k)) => {
                        let opener = lines[i].clone();
                        let closer = lines[k].clone();
                        let ghost inner = blocks_text(children@);
                        let ghost kids = children@;
                        blocks.push(
                            Block::Region(Region { name, directives, opener, children, closer }),
                        );
                        proof {
                            assert(blocks@.drop_last() =~= before);
                            assert(blocks_text(blocks@) == blocks_text(before) + block_text(blocks@.last()));
                            assert(block_text(blocks@.last()) == ls[i as int] + inner + ls[k as int]);
                            lemma_region_concat(ls, start as int, i as int, k as int);
                            assert(nests(ls, left@, right@, i as int, here) == nests(
                                ls,
                                left@,
                                right@,
                                i as int + 1,
                                here.push(nm),
                            ));
                            assert(blocks_span(kids) == k - i - 1);
                            assert(block_matches(blocks@.last(), ls, left@, right@, i as int));
                            assert(blocks_match(blocks@, ls, left@, right@, start as int));
                            assert(blocks_span(blocks@) == blocks_span(before) + block_span(blocks@.last()));
                            assert(block_span(blocks@.last()) == blocks_span(kids) + 2);
                        }
                        i = k + 1;
                    },
                    Err(e) => {
                        assert(nests(ls, left@, right@, i as int, here) == nests(
                            ls,
                            left@,
                            right@,
                            i as int + 1,
                            here.push(nm),
                        ));
                        return Err(e);
                    },
                }
            },
            Marker::End { name } => {
                match open {
                    Some(n) => {
                        assert(here == stk.push(n@));
                        assert(stk.push(n@).drop_last() =~= stk);
                        if str_eq(name.as_str(), n) {
                            return Ok((blocks, i));
                        } else {
                            return Err("Mismatched region name");
                        }
                    },
                    None => {
                        return Err("END marker outside any region");
                    },
                }
            },
        }
    }
    match open {
        Some(_) => Err("Unclosed region"),
        None => Ok((blocks, i)),
    }
}

/// Parses a document given as its lines, each with its line ending.
/// It succeeds exactly when the markers nest properly; the blocks are then
/// the tree of the lines, and give them back byte for byte.
pub fn parse_lines(lines: &Vec<String>, left: &str, right: &str) -> (r: Result<Vec<Block>, &'static str>)
    ensures
        r is Ok <==> nests(views_of(lines@), left@, right@, 0, Seq::empty()),
        r is Ok ==> blocks_text(r->Ok_0@) == concat(views_of(lines@)),
        r is Ok ==> is_tree_of(r->Ok_0@, views_of(lines@), left@, right@),
{
    match parse_blocks(lines, 0, None, left, right, Ghost(Seq::empty())) {
        Ok((blocks, _end)) => {
            assert(views_of(lines@).subrange(0, lines@.len() as int) =~= views_of(lines@));
            Ok(blocks)
        },
        Err(e) => {
            assert(frame(None, Seq::<Seq<char>>::empty()) == Seq::<Seq<char>>::empty());
            Err(e)
        },
    }
}

/// Each piece followed by a line feed.
pub open spec fn with_newlines(ps: Seq<Seq<char>>) -> Seq<Seq<char>>
    decreases ps.len(),
{
    if ps.len() == 0 {
        Seq::empty()
    } else {
        with_newlines(ps.drop_last()).push(ps.last() + seq!['\n'])
    }
}

/// The lines of a text: the pieces between line feeds, each with its line
/// feed, and a last piece without one if it is not empty.
pub open spec fn doc_lines(s: Seq<char>) -> Seq<Seq<char>> {
    let ps = split_spec(s, '\n');
    let body = with_newlines(ps.drop_last());
    if ps.last().len() > 0 {
        body.push(ps.last())
    } else {
        body
    }
}

/// The lines of a document, each with its `\n`; a last line without
/// one is kept as it is.
pub fn document_lines(doc: &str) -> (r: Vec<String>)
    ensures
        views_of(r@) == doc_lines(doc@),
        concat(views_of(r@)) == doc@,
        forall|k: int| 0 <= k < r@.len() ==> (#[trigger] r@[k])@.len() > 0,
        forall|k: int| 0 <= k < r@.len() - 1 ==> (#[trigger] r@[k])@.last() == '\n',
{
    let pieces = split_on(doc, '\n');
    let ghost ps = views_of(pieces@);
    proof {
        lemma_join_split(doc@, '\n');
        assert(ps.take(1) =~= seq![ps[0]]);
        assert(concat(Seq::<Seq<char>>::empty()) == Seq::<char>::empty());
        assert(Seq::<char>::empty() + ps[0] =~= ps[0]);
    }
    let n = pieces.len();
    let mut out: Vec<String> = Vec::new();
    let mut k: usize = 0;
    while k + 1 < n
        invariant
            ps == views_of(pieces@),
            n == pieces@.len(),
            n >= 1,
            k < n,
            concat(views_of(out@)) + ps[k as int] == join(ps.take(k as int + 1), '\n'),
            out@.len() == k,
            views_of(out@) == with_newlines(ps.take(k as int)),
            ps == split_spec(doc@, '\n'),
            forall|j: int| 0 <= j < out@.len() ==> (#[trigger] out@[j])@.len() > 0,
            forall|j: int| 0 <= j < out@.len() ==> (#[trigger] out@[j])@.last() == '\n',
        decreases n - k,
    {
        let mut line = pieces[k].clone();
        line.append("\n");
        proof {
            reveal_strlit("\n");
            assert("\n"@ =~= seq!['\n']);
        }
        let ghost before = out@;
        out.push(line);
        proof {
            assert(views_of(out@).drop_last() =~= views_of(before));
            assert(ps.take(k as int + 2).drop_last() =~= ps.take(k as int + 1));
            assert(ps.take(k as int + 2).last() == ps[k as int + 1]);
            assert(ps.take(k as int + 1).drop_last() =~= ps.take(k as int));
            assert(ps.take(k as int + 1).last() == ps[k as int]);
            assert(views_of(out@) =~= views_of(before).push(ps[k as int] + seq!['\n']));
            assert(concat(views_of(out@)) + ps[k as int + 1] =~= concat(views_of(before)) + ps[k as int]
                + seq!['\n'] + ps[k as int + 1]);
        }
        k = k + 1;
    }
    assert(ps.take(n as int) =~= ps);
    assert(ps.take(k as int) =~= ps.drop_last());
    assert(ps[k as int] == ps.last());
    if pieces[k].unicode_len() > 0 {
        let ghost before = out@;
        out.push(pieces[k].clone());
        assert(views_of(out@).drop_last() =~= views_of(before));
        assert(views_of(out@) =~= views_of(before).push(ps.last()));
    } else {
        assert(concat(views_of(out@)) + ps[k as int] =~= concat(views_of(out@)));
    }
    out
}

/// Parses a document into blocks. It succeeds exactly when the markers of
/// its lines nest properly; the blocks are then the tree of its lines and,
/// written out again, give back the document byte for byte.
pub fn parse_document(doc: &str, left: &str, right: &str) -> (r: Result<Vec<Block>, &'static str>)
    ensures
        r is Ok <==> nests(doc_lines(doc@), left@, right@, 0, Seq::empty()),
        r is Ok ==> blocks_text(r->Ok_0@) == doc@,
        r is Ok ==> is_tree_of(r->Ok_0@, doc_lines(doc@), left@, right@),
{
    let lines = document_lines(doc);
    parse_lines(&lines, left, right)
}

/// A marker line: `prefix`, `left`, the words each after a space, a space,
/// `right` and a line feed.
pub open spec fn marker_text(prefix: Seq<char>, left: Seq<char>, right: Seq<char>, ws: Seq<
    Seq<char>,
>) -> Seq<char> {
    prefix + left + join(seq![Seq::<char>::empty()] + ws + seq![Seq::<char>::empty()], ' ') + right
        + seq!['\n']
}

/// Writes a marker line with the given words.
fn marker_line(prefix: &str, left: &str, right: &str, ws: &Vec<String>) -> (r: String)
    ensures
        r@ == marker_text(prefix@, left@, right@, views_of(ws@)),
{
    proof {
        reveal_strlit(" ");
        reveal_strlit("\n");
        assert(" "@ =~= seq![' ']);
        assert("\n"@ =~= seq!['\n']);
    }
    let ghost v = views_of(ws@);
    let ghost e = Seq::<char>::empty();
    let mut out = String::from_str(prefix);
    out.append(left);
    let ghost head = out@;
    let mut k: usize = 0;
    assert(seq![e] + v.take(0) =~= seq![e]);
    while k < ws.len()
        invariant
            v == views_of(ws@),
            e == Seq::<char>::empty(),
            k <= ws@.len(),
            " "@ == seq![' '],
            out@ == head + join(seq![e] + v.take(k as int), ' '),
        decreases ws@.len() - k,
    {
        let ghost before = out@;
        out.append(" ");
        out.append(ws[k].as_str());
        proof {
            let p = seq![e] + v.take(k as int + 1);
            assert(p.drop_last() =~= seq![e] + v.take(k as int));
            assert(p.last() == ws@[k as int]@);
            assert(out@ =~= head + (join(seq![e] + v.take(k as int), ' ') + seq![' '] + ws@[k as int]@));
        }
        k = k + 1;
    }
    out.append(" ");
    out.append(right);
    out.append("\n");
    proof {
        assert(v.take(ws@.len() as int) =~= v);
        let p = seq![e] + v + seq![e];
        assert(p.drop_last() =~= seq![e] + v);
        assert(join(p, ' ') =~= join(seq![e] + v, ' ') + seq![' '] + e);
        assert(out@ =~= marker_text(prefix@, left@, right@, v));
    }
    out
}

/// The line that opens region `name` with these directive words.
pub fn begin_marker(prefix: &str, left: &str, right: &str, name: &str, directives: &Vec<String>) -> (r:
    String)
    ensures
        r@ == marker_text(prefix@, left@, right@, seq!["BEGIN"@, name@] + views_of(directives@)),
{
    let mut ws: Vec<String> = Vec::new();
    ws.push(String::from_str("BEGIN"));
    ws.push(String::from_str(name));
    let mut k: usize = 0;
    while k < directives.len()
        invariant
            k <= directives@.len(),
            views_of(ws@) == seq!["BEGIN"@, name@] + views_of(directives@).take(k as int),
        decreases directives@.len() - k,
    {
        let ghost before = ws@;
        ws.push(directives[k].clone());
        assert(views_of(ws@) =~= views_of(before).push(directives@[k as int]@));
        assert(views_of(directives@).take(k as int + 1) =~= views_of(directives@).take(k as int).push(
            directives@[k as int]@,
        ));
        assert(views_of(ws@) =~= seq!["BEGIN"@, name@] + views_of(directives@).take(k as int + 1));
        k = k + 1;
    }
    assert(views_of(directives@).take(directives@.len() as int) =~= views_of(directives@));
    marker_line(prefix, left, right, &ws)
}

/// The line that closes region `name`.
pub fn end_marker(prefix: &str, left: &str, right: &str, name: &str) -> (r: String)
    ensures
        r@ == marker_text(prefix@, left@, right@, seq!["END"@, name@]),
{
    let mut ws: Vec<String> = Vec::new();
    ws.push(String::from_str("END"));
    ws.push(String::from_str(name));
    assert(views_of(ws@) =~= seq!["END"@, name@]);
    marker_line(prefix, left, right, &ws)
}

proof fn lemma_blank_prefix(prefix: Seq<char>, rest: Seq<char>)
    requires
        forall|i: int| 0 <= i < prefix.len() ==> is_blank(#[trigger] prefix[i]),
        rest.len() > 0 && !is_blank(rest[0]),
    ensures
        blank_prefix_len(prefix + rest) == prefix.len(),
    decreases prefix.len(),
{
    if prefix.len() > 0 {
        assert((prefix + rest).drop_first() =~= prefix.drop_first() + rest);
        assert forall|i: int| 0 <= i < prefix.drop_first().len() implies is_blank(
            #[trigger] prefix.drop_first()[i],
        ) by {
            assert(prefix.drop_first()[i] == prefix[i + 1]);
        }
        lemma_blank_prefix(prefix.drop_first(), rest);
        assert((prefix + rest)[0] == prefix[0]);
    } else {
        assert(prefix + rest =~= rest);
    }
}

proof fn lemma_nonempty_words_keep(ws: Seq<Seq<char>>)
    requires
        forall|i: int| 0 <= i < ws.len() ==> (#[trigger] ws[i]).len() > 0,
    ensures
        nonempty_words(ws) == ws,
    decreases ws.len(),
{
    if ws.len() > 0 {
        let q = ws.drop_last();
        assert forall|i: int| 0 <= i < q.len() implies (#[trigger] q[i]).len() > 0 by {
            assert(q[i] == ws[i]);
        }
        lemma_nonempty_words_keep(q);
        assert(ws[ws.len() - 1] == ws.last());
        assert(q.push(ws.last()) =~= ws);
    }
}

proof fn lemma_nonempty_words_ends(ws: Seq<Seq<char>>)
    requires
        forall|i: int| 0 <= i < ws.len() ==> (#[trigger] ws[i]).len() > 0,
    ensures
        nonempty_words(seq![Seq::<char>::empty()] + ws + seq![Seq::<char>::empty()]) == ws,
    decreases ws.len(),
{
    let e = Seq::<char>::empty();
    let all = seq![e] + ws + seq![e];
    assert(all.drop_last() =~= seq![e] + ws);
    lemma_nonempty_words_front(ws);
}

proof fn lemma_nonempty_words_front(ws: Seq<Seq<char>>)
    requires
        forall|i: int| 0 <= i < ws.len() ==> (#[trigger] ws[i]).len() > 0,
    ensures
        nonempty_words(seq![Seq::<char>::empty()] + ws) == ws,
    decreases ws.len(),
{
    let e = Seq::<char>::empty();
    if ws.len() == 0 {
        assert(seq![e] + ws =~= seq![e]);
        assert(seq![e].drop_last() =~= Seq::<Seq<char>>::empty());
        assert(nonempty_words(seq![e]) == nonempty_words(Seq::<Seq<char>>::empty()));
        assert(ws =~= Seq::<Seq<char>>::empty());
    } else {
        let q = ws.drop_last();
        assert forall|i: int| 0 <= i < q.len() implies (#[trigger] q[i]).len() > 0 by {
            assert(q[i] == ws[i]);
        }
        lemma_nonempty_words_front(q);
        assert((seq![e] + ws).drop_last() =~= seq![e] + q);
        assert((seq![e] + ws).last() == ws.last());
        assert(ws[ws.len() - 1] == ws.last());
        assert(ws.last().len() > 0);
        assert(nonempty_words(seq![e] + ws) == nonempty_words(seq![e] + q).push(ws.last()));
        assert(q.push(ws.last()) =~= ws);
    }
}

/// What a marker writer needs of its pieces: blanks before the marker, a
/// left separator that begins with no blank, a non-empty right separator
/// that does not end in a carriage return, and words without spaces.
pub open spec fn marker_parts_ok(prefix: Seq<char>, left: Seq<char>, right: Seq<char>, ws: Seq<
    Seq<char>,
>) -> bool {
    &&& forall|i: int| 0 <= i < prefix.len() ==> is_blank(#[trigger] prefix[i])
    &&& left.len() > 0 && !is_blank(left[0])
    &&& right.len() > 0 && right.last() != '\r'
    &&& forall|i: int| 0 <= i < ws.len() ==> (#[trigger] ws[i]).len() > 0 && !ws[i].contains(' ')
}

proof fn lemma_marker_words(prefix: Seq<char>, left: Seq<char>, right: Seq<char>, ws: Seq<Seq<char>>)
    requires
        marker_parts_ok(prefix, left, right, ws),
        ws.len() > 0,
    ensures
        ({
            let inner = join(seq![Seq::<char>::empty()] + ws + seq![Seq::<char>::empty()], ' ');
            marker_inner(marker_text(prefix, left, right, ws), left, right) == Some(inner) && words(
                inner,
            ) == ws
        }),
{
    let e = Seq::<char>::empty();
    let all = seq![e] + ws + seq![e];
    let inner = join(all, ' ');
    assert forall|i: int| 0 <= i < all.len() implies !(#[trigger] all[i]).contains(' ') by {
        if 0 < i < all.len() - 1 {
            assert(all[i] == ws[i - 1]);
        }
    }
    lemma_split_join(all, ' ');
    assert forall|i: int| 0 <= i < ws.len() implies (#[trigger] ws[i]).len() > 0 by {}
    lemma_nonempty_words_ends(ws);
    // the inner text is a space, the words, and a space
    lemma_join_ends(ws);
    let line = marker_text(prefix, left, right, ws);
    let body = prefix + left + inner + right;
    assert(line =~= body + seq!['\n']);
    assert(line.drop_last() =~= body);
    assert(body.last() == right.last());
    assert(line_body(line) == body);
    assert(body =~= prefix + (left + inner + right));
    assert((left + inner + right)[0] == left[0]);
    lemma_blank_prefix(prefix, left + inner + right);
    let rest = body.skip(prefix.len() as int);
    assert(rest =~= left + inner + right);
    assert(rest.take(left.len() as int) =~= left);
    assert(rest.skip(rest.len() - right.len()) =~= right);
    assert(rest.subrange(left.len() as int, rest.len() - right.len()) =~= inner);
}

proof fn lemma_join_ends(ws: Seq<Seq<char>>)
    requires
        ws.len() > 0,
    ensures
        ({
            let inner = join(seq![Seq::<char>::empty()] + ws + seq![Seq::<char>::empty()], ' ');
            inner.len() >= 2 && inner[0] == ' ' && inner.last() == ' '
        }),
{
    let e = Seq::<char>::empty();
    let all = seq![e] + ws + seq![e];
    assert(all.drop_last() =~= seq![e] + ws);
    lemma_join_front(ws);
    let j = join(seq![e] + ws, ' ');
    assert(join(all, ' ') == j + seq![' '] + e);
    assert((j + seq![' '] + e)[0] == j[0]);
}

proof fn lemma_join_front(ws: Seq<Seq<char>>)
    ensures
        ({
            let j = join(seq![Seq::<char>::empty()] + ws, ' ');
            ws.len() > 0 ==> j.len() >= 1 && j[0] == ' '
        }),
    decreases ws.len(),
{
    let e = Seq::<char>::empty();
    if ws.len() > 0 {
        let q = ws.drop_last();
        assert((seq![e] + ws).drop_last() =~= seq![e] + q);
        lemma_join_front(q);
        let jq = join(seq![e] + q, ' ');
        assert(join(seq![e] + ws, ' ') == jq + seq![' '] + ws.last());
        if q.len() == 0 {
            assert(seq![e] + q =~= seq![e]);
            assert(jq == e);
            assert((jq + seq![' '] + ws.last())[0] == ' ');
        } else {
            assert((jq + seq![' '] + ws.last())[0] == jq[0]);
        }
    }
}

/// A written opening marker reads back as the same name and directives.
pub proof fn lemma_begin_marker_reads_back(
    prefix: Seq<char>,
    left: Seq<char>,
    right: Seq<char>,
    name: Seq<char>,
    ds: Seq<Seq<char>>,
)
    requires
        marker_parts_ok(prefix, left, right, ds),
        is_ident(name),
    ensures
        begin_words(marker_text(prefix, left, right, seq!["BEGIN"@, name] + ds), left, right) == Some(
            seq!["BEGIN"@, name] + ds,
        ),
{
    reveal_strlit("BEGIN");
    let ws = seq!["BEGIN"@, name] + ds;
    assert(!"BEGIN"@.contains(' ')) by {
        if "BEGIN"@.contains(' ') {
            let i = choose|i: int| 0 <= i < 5 && "BEGIN"@[i] == ' ';
        }
    }
    assert(!name.contains(' ')) by {
        if name.contains(' ') {
            let i = choose|i: int| 0 <= i < name.len() && name[i] == ' ';
            assert(is_ident_char(name[i]));
        }
    }
    assert forall|i: int| 0 <= i < ws.len() implies (#[trigger] ws[i]).len() > 0 && !ws[i].contains(' ') by {
        if i >= 2 {
            assert(ws[i] == ds[i - 2]);
        }
    }
    lemma_marker_words(prefix, left, right, ws);
    assert(ws[0] == "BEGIN"@ && ws[1] == name);
}

/// A written closing marker reads back as the same name.
pub proof fn lemma_end_marker_reads_back(prefix: Seq<char>, left: Seq<char>, right: Seq<char>, name: Seq<char>)
    requires
        forall|i: int| 0 <= i < prefix.len() ==> is_blank(#[trigger] prefix[i]),
        left.len() > 0 && !is_blank(left[0]),
        right.len() > 0 && right.last() != '\r',
        is_ident(name),
    ensures
        end_name(marker_text(prefix, left, right, seq!["END"@, name]), left, right) == Some(name),
{
    reveal_strlit("END");
    let ws = seq!["END"@, name];
    assert(!"END"@.contains(' ')) by {
        if "END"@.contains(' ') {
            let i = choose|i: int| 0 <= i < 3 && "END"@[i] == ' ';
        }
    }
    assert(!name.contains(' ')) by {
        if name.contains(' ') {
            let i = choose|i: int| 0 <= i < name.len() && name[i] == ' ';
            assert(is_ident_char(name[i]));
        }
    }
    assert forall|i: int| 0 <= i < ws.len() implies (#[trigger] ws[i]).len() > 0 && !ws[i].contains(' ') by {}
    lemma_marker_words(prefix, left, right, ws);
}

/// The payload of `line` if it is a `DATA` continuation line.
pub open spec fn data_payload(line: Seq<char>, left: Seq<char>, right: Seq<char>) -> Option<Seq<char>> {
    match marker_inner(line, left, right) {
        Some(inner) => {
            let w = words(inner);
            if w.len() == 2 && w[0] == "DATA"@ {
                Some(w[1])
            } else {
                None
            }
        },
        None => None,
    }
}

/// Reads the payload of a `DATA` continuation line.
pub fn read_data_line(line: &str, left: &str, right: &str) -> (r: Option<String>)
    ensures
        match data_payload(line@, left@, right@) {
            Some(p) => r is Some && r->Some_0@ == p,
            None => r is None,
        },
{
    match split_marker(line, left, right) {
        None => None,
        Some(w) => {
            if w.len() == 2 {
                assert(views_of(w@)[0] == w@[0]@ && views_of(w@)[1] == w@[1]@);
                if str_eq(w[0].as_str(), "DATA") {
                    return Some(w[1].clone());
                }
            }
            None
        },
    }
}

/// The line that continues a long value with the piece `chunk`.
pub fn data_marker(prefix: &str, left: &str, right: &str, chunk: &str) -> (r: String)
    ensures
        r@ == marker_text(prefix@, left@, right@, seq!["DATA"@, chunk@]),
{
    let mut ws: Vec<String> = Vec::new();
    ws.push(String::from_str("DATA"));
    ws.push(String::from_str(chunk));
    assert(views_of(ws@) =~= seq!["DATA"@, chunk@]);
    marker_line(prefix, left, right, &ws)
}

/// A written continuation line reads back as its piece.
pub proof fn lemma_data_line_reads_back(prefix: Seq<char>, left: Seq<char>, right: Seq<char>, chunk: Seq<char>)
    requires
        marker_parts_ok(prefix, left, right, seq![chunk]),
    ensures
        data_payload(marker_text(prefix, left, right, seq!["DATA"@, chunk]), left, right) == Some(chunk),
{
    reveal_strlit("DATA");
    let ws = seq!["DATA"@, chunk];
    assert(!"DATA"@.contains(' ')) by {
        if "DATA"@.contains(' ') {
            let i = choose|i: int| 0 <= i < 4 && "DATA"@[i] == ' ';
        }
    }
    assert(seq![chunk][0] == chunk);
    assert forall|i: int| 0 <= i < ws.len() implies (#[trigger] ws[i]).len() > 0 && !ws[i].contains(' ') by {}
    lemma_marker_words(prefix, left, right, ws);
}

/// A value cut into pieces of `width` characters, the last one shorter.
pub open spec fn chunks(s: Seq<char>, width: nat) -> Seq<Seq<char>>
    decreases s.len(),
{
    if s.len() == 0 || width == 0 {
        Seq::empty()
    } else if s.len() <= width {
        seq![s]
    } else {
        seq![s.take(width as int)] + chunks(s.skip(width as int), width)
    }
}

/// The pieces, written one after another, give back the value.
pub proof fn lemma_chunks_concat(s: Seq<char>, width: nat)
    requires
        width > 0,
    ensures
        concat(chunks(s, width)) == s,
    decreases s.len(),
{
    if s.len() == 0 {
    } else if s.len() <= width {
        assert(seq![s].drop_last() =~= Seq::<Seq<char>>::empty());
        assert(concat(Seq::<Seq<char>>::empty()) == Seq::<char>::empty());
        assert(concat(seq![s]) == concat(seq![s].drop_last()) + seq![s].last());
        assert(concat(seq![s]) =~= s);
    } else {
        assert(chunks(s, width) == seq![s.take(width as int)] + chunks(s.skip(width as int), width));
        lemma_chunks_concat(s.skip(width as int), width);
        lemma_concat_prepend(s.take(width as int), chunks(s.skip(width as int), width));
        assert(s.take(width as int) + s.skip(width as int) =~= s);
    }
}

proof fn lemma_concat_prepend(x: Seq<char>, rest: Seq<Seq<char>>)
    ensures
        concat(seq![x] + rest) == x + concat(rest),
    decreases rest.len(),
{
    if rest.len() == 0 {
        assert(seq![x] + rest =~= seq![x]);
        assert(seq![x].drop_last() =~= Seq::<Seq<char>>::empty());
        assert(concat(Seq::<Seq<char>>::empty()) == Seq::<char>::empty());
        assert(rest =~= Seq::<Seq<char>>::empty());
        assert(concat(seq![x]) == concat(seq![x].drop_last()) + seq![x].last());
        assert(concat(seq![x]) =~= x);
        assert(x + concat(rest) =~= x);
    } else {
        lemma_concat_prepend(x, rest.drop_last());
        assert((seq![x] + rest).drop_last() =~= seq![x] + rest.drop_last());
        assert((seq![x] + rest).last() == rest.last());
        assert(concat(rest) == concat(rest.drop_last()) + rest.last());
        assert(x + concat(rest.drop_last()) + rest.last() =~= x + (concat(rest.drop_last()) + rest.last()));
    }
}

/// Cuts a long value into pieces of at most `width` characters.
pub fn chunk_value(value: &str, width: usize) -> (r: Vec<String>)
    requires
        width > 0,
    ensures
        views_of(r@) == chunks(value@, width as nat),
{
    let n = value.unicode_len();
    let mut out: Vec<String> = Vec::new();
    let mut start: usize = 0;
    assert(value@.skip(0) =~= value@);
    assert(views_of(out@) =~= Seq::<Seq<char>>::empty());
    assert(Seq::<Seq<char>>::empty() + chunks(value@, width as nat) =~= chunks(value@, width as nat));
    while start < n
        invariant
            n == value@.len(),
            start <= n,
            width > 0,
            views_of(out@) + chunks(value@.skip(start as int), width as nat) == chunks(value@, width as nat),
        decreases n - start,
    {
        let ghost s = value@.skip(start as int);
        let end: usize = if n - start > width {
            start + width
        } else {
            n
        };
        let piece = String::from_str(value.substring_char(start, end));
        let ghost before = views_of(out@);
        out.push(piece);
        proof {
            assert(views_of(out@) =~= before.push(value@.subrange(start as int, end as int)));
            if n - start > width {
                assert(s.take(width as int) =~= value@.subrange(start as int, end as int));
                assert(s.skip(width as int) =~= value@.skip(end as int));
                assert(chunks(s, width as nat) == seq![s.take(width as int)] + chunks(s.skip(width as int), width as nat));
                assert(before.push(value@.subrange(start as int, end as int)) + chunks(value@.skip(end as int), width as nat)
                    =~= before + chunks(s, width as nat));
            } else {
                assert(s =~= value@.subrange(start as int, end as int));
                assert(value@.skip(end as int) =~= Seq::<char>::empty());
                assert(chunks(s, width as nat) == seq![s]);
                assert(before.push(s) + chunks(value@.skip(end as int), width as nat) =~= before + chunks(s, width as nat));
            }
        }
        start = end;
    }
    assert(value@.skip(n as int) =~= Seq::<char>::empty());
    assert(views_of(out@) + Seq::<Seq<char>>::empty() =~= views_of(out@));
    out
}

} // verus!
