//! The state of a region and the order in which operations apply to it.
use vstd::prelude::*;
use crate::cas::check_cas_entry;
use crate::crypto::hex_of;
use crate::doc::{
    begin_marker, blank_prefix, blank_prefix_len, blocks_text, blocks_to_string, doc_lines, is_tree_of,
    marker_text, parse_document, Block, Region,
};
use crate::prot::{blob_text, ProtBlob};
use crate::text::{has_prefix, str_eq, views_of};

verus! {

/// Where a region's body is: inline, encrypted inline, in the store, or
/// encrypted in the store.
#[derive(PartialEq, Eq, Structural, Debug, Clone, Copy)]
pub enum RegionState {
    Plain,
    Encrypted,
    Stored,
    EncryptedAndStored,
}

/// Whether a directive word among `ds` begins with `key`.
pub open spec fn has_directive(ds: Seq<Seq<char>>, key: Seq<char>) -> bool {
    exists|i: int| 0 <= i < ds.len() && key.len() <= ds[i].len() && #[trigger] ds[i].subrange(0, key.len() as int) == key
}

/// The state that a region's directives give it: `store:` marks it as
/// stored, `prot:` as encrypted.
pub open spec fn state_of(ds: Seq<Seq<char>>) -> RegionState {
    let s = has_directive(ds, "store:"@);
    let p = has_directive(ds, "prot:"@);
    if s && p {
        RegionState::EncryptedAndStored
    } else if s {
        RegionState::Stored
    } else if p {
        RegionState::Encrypted
    } else {
        RegionState::Plain
    }
}

fn has_key(directives: &Vec<String>, key: &str) -> (r: bool)
    ensures
        r == has_directive(views_of(directives@), key@),
{
    let ghost ds = views_of(directives@);
    let mut i: usize = 0;
    while i < directives.len()
        invariant
            ds == views_of(directives@),
            i <= directives@.len(),
            forall|j: int|
                0 <= j < i ==> !(key@.len() <= ds[j].len() && #[trigger] ds[j].subrange(0, key@.len() as int) == key@),
        decreases directives@.len() - i,
    {
        assert(ds[i as int] == directives@[i as int]@);
        if has_prefix(directives[i].as_str(), key) {
            return true;
        }
        i = i + 1;
    }
    false
}

/// The state of a region with these directive words.
pub fn region_state(directives: &Vec<String>) -> (r: RegionState)
    ensures
        r == state_of(views_of(directives@)),
{
    let s = has_key(directives, "store:");
    let p = has_key(directives, "prot:");
    if s && p {
        RegionState::EncryptedAndStored
    } else if s {
        RegionState::Stored
    } else if p {
        RegionState::Encrypted
    } else {
        RegionState::Plain
    }
}

/// Whether `name` is among `names`.
pub fn names_contain(names: &Vec<String>, name: &str) -> (r: bool)
    ensures
        r == views_of(names@).contains(name@),
{
    let ghost ns = views_of(names@);
    let mut i: usize = 0;
    while i < names.len()
        invariant
            ns == views_of(names@),
            i <= names@.len(),
            forall|j: int| 0 <= j < i ==> ns[j] != name@,
        decreases names@.len() - i,
    {
        assert(ns[i as int] == names@[i as int]@);
        if str_eq(names[i].as_str(), name) {
            return true;
        }
        i = i + 1;
    }
    false
}

/// An operation on one region.
#[derive(PartialEq, Eq, Structural, Debug, Clone, Copy)]
pub enum Step {
    /// Bring the body back from the store.
    Fetch,
    /// Decrypt the body.
    Decrypt,
    /// Encrypt the body.
    Encrypt,
    /// Move the body to the store.
    Store,
}

/// Whether `step` applies to a region in state `s`. Decrypting a stored
/// region fetches it first, and encrypting one reads it from the store.
pub open spec fn step_applies(s: RegionState, step: Step) -> bool {
    match step {
        Step::Fetch => s == RegionState::Stored || s == RegionState::EncryptedAndStored,
        Step::Decrypt => s == RegionState::Encrypted || s == RegionState::EncryptedAndStored,
        Step::Encrypt => s == RegionState::Plain || s == RegionState::Stored,
        Step::Store => s == RegionState::Plain || s == RegionState::Encrypted,
    }
}

/// The state after `step` on a region in state `s`, where it applies.
pub open spec fn after_step(s: RegionState, step: Step) -> RegionState {
    match step {
        Step::Fetch => if s == RegionState::EncryptedAndStored {
            RegionState::Encrypted
        } else {
            RegionState::Plain
        },
        Step::Decrypt => RegionState::Plain,
        Step::Encrypt => RegionState::Encrypted,
        Step::Store => if s == RegionState::Encrypted {
            RegionState::EncryptedAndStored
        } else {
            RegionState::Stored
        },
    }
}

/// The steps that are asked for, in the order in which they are tried.
pub open spec fn step_order(fetch: bool, decrypt: bool, encrypt: bool, store: bool) -> Seq<Step> {
    let a = if fetch { seq![Step::Fetch] } else { Seq::empty() };
    let b = if decrypt { a.push(Step::Decrypt) } else { a };
    let c = if encrypt { b.push(Step::Encrypt) } else { b };
    if store { c.push(Step::Store) } else { c }
}

/// The steps of `asked` that apply, taken in order from state `s`, and the
/// state they lead to.
pub open spec fn run_steps(s: RegionState, asked: Seq<Step>) -> (Seq<Step>, RegionState)
    decreases asked.len(),
{
    if asked.len() == 0 {
        (Seq::empty(), s)
    } else {
        let (done, t) = run_steps(s, asked.drop_last());
        if step_applies(t, asked.last()) {
            (done.push(asked.last()), after_step(t, asked.last()))
        } else {
            (done, t)
        }
    }
}

/// Plans the operations on a region in state `state`: fetch, decrypt,
/// encrypt and store, in that order, each where it was asked for and
/// applies to the state that the earlier ones left. Returns the steps and
/// the region's final state.
pub fn plan_region(state: RegionState, fetch: bool, decrypt: bool, encrypt: bool, store: bool) -> (r: (
    Vec<Step>,
    RegionState,
))
    ensures
        r.0@ == run_steps(state, step_order(fetch, decrypt, encrypt, store)).0,
        r.1 == run_steps(state, step_order(fetch, decrypt, encrypt, store)).1,
{
    let ghost order = step_order(fetch, decrypt, encrypt, store);
    let mut asked: Vec<Step> = Vec::new();
    if fetch {
        asked.push(Step::Fetch);
    }
    if decrypt {
        asked.push(Step::Decrypt);
    }
    if encrypt {
        asked.push(Step::Encrypt);
    }
    if store {
        asked.push(Step::Store);
    }
    assert(asked@ =~= order);
    let mut steps: Vec<Step> = Vec::new();
    let mut s = state;
    let mut i: usize = 0;
    assert(order.take(0) =~= Seq::<Step>::empty());
    while i < asked.len()
        invariant
            asked@ == order,
            i <= asked@.len(),
            (steps@, s) == run_steps(state, order.take(i as int)),
        decreases asked@.len() - i,
    {
        let step = asked[i];
        assert(order.take(i as int + 1).drop_last() =~= order.take(i as int));
        assert(order.take(i as int + 1).last() == step);
        let applies = match step {
            Step::Fetch => s == RegionState::Stored || s == RegionState::EncryptedAndStored,
            Step::Decrypt => s == RegionState::Encrypted || s == RegionState::EncryptedAndStored,
            Step::Encrypt => s == RegionState::Plain || s == RegionState::Stored,
            Step::Store => s == RegionState::Plain || s == RegionState::Encrypted,
        };
        if applies {
            steps.push(step);
            s = match step {
                Step::Fetch => if s == RegionState::EncryptedAndStored {
                    RegionState::Encrypted
                } else {
                    RegionState::Plain
                },
                Step::Decrypt => RegionState::Plain,
                Step::Encrypt => RegionState::Encrypted,
                Step::Store => if s == RegionState::Encrypted {
                    RegionState::EncryptedAndStored
                } else {
                    RegionState::Stored
                },
            };
        }
        i = i + 1;
    }
    assert(order.take(order.len() as int) =~= order);
    (steps, s)
}

/// Undoing protection restores a plain region: after encrypting and/or
/// storing a plain region, fetching and/or decrypting it with the same
/// choices leaves it plain again, and each asked-for step was taken.
pub proof fn lemma_state_round_trip(encrypt: bool, store: bool)
    ensures
        ({
            let there = run_steps(RegionState::Plain, step_order(false, false, encrypt, store));
            let back = run_steps(there.1, step_order(store, encrypt, false, false));
            back.1 == RegionState::Plain && there.0 == step_order(false, false, encrypt, store)
                && back.0 == step_order(store, encrypt, false, false)
        }),
{
    reveal_with_fuel(run_steps, 3);
    assert(seq![Step::Encrypt].drop_last() =~= Seq::<Step>::empty());
    assert(seq![Step::Store].drop_last() =~= Seq::<Step>::empty());
    assert(seq![Step::Fetch].drop_last() =~= Seq::<Step>::empty());
    assert(seq![Step::Decrypt].drop_last() =~= Seq::<Step>::empty());
    assert(Seq::<Step>::empty().push(Step::Encrypt).push(Step::Store).drop_last() =~= seq![Step::Encrypt]);
    assert(Seq::<Step>::empty().push(Step::Encrypt) =~= seq![Step::Encrypt]);
    assert(Seq::<Step>::empty().push(Step::Store) =~= seq![Step::Store]);
    assert(seq![Step::Fetch].push(Step::Decrypt).drop_last() =~= seq![Step::Fetch]);
    assert(Seq::<Step>::empty().push(Step::Decrypt) =~= seq![Step::Decrypt]);
    assert(Seq::<Step>::empty().push(Step::Fetch) =~= seq![Step::Fetch]);
}

/// Whether directive word `d` begins with `key`.
pub open spec fn starts_with(d: Seq<char>, key: Seq<char>) -> bool {
    key.len() <= d.len() && d.subrange(0, key.len() as int) == key
}

/// The directive words without those that begin with `key`.
pub open spec fn drop_key(ds: Seq<Seq<char>>, key: Seq<char>) -> Seq<Seq<char>>
    decreases ds.len(),
{
    if ds.len() == 0 {
        Seq::empty()
    } else {
        let p = drop_key(ds.drop_last(), key);
        if starts_with(ds.last(), key) {
            p
        } else {
            p.push(ds.last())
        }
    }
}

/// What follows `key` in the last directive word that begins with it.
pub open spec fn key_value(ds: Seq<Seq<char>>, key: Seq<char>) -> Option<Seq<char>>
    decreases ds.len(),
{
    if ds.len() == 0 {
        None
    } else if starts_with(ds.last(), key) {
        Some(ds.last().skip(key.len() as int))
    } else {
        key_value(ds.drop_last(), key)
    }
}

/// The blanks that stand before a marker line.
pub open spec fn marker_prefix(line: Seq<char>) -> Seq<char> {
    line.take(blank_prefix_len(line) as int)
}

/// The opener line of a region named `name` with directive words `ds`,
/// keeping the leading blanks of `old`.
pub open spec fn opener_for(old: Seq<char>, left: Seq<char>, right: Seq<char>, name: Seq<char>, ds: Seq<Seq<char>>) -> Seq<char> {
    marker_text(marker_prefix(old), left, right, seq!["BEGIN"@, name] + ds)
}

/// `new` is `old` with its body moved to the store under `digest`.
pub open spec fn stored_as(old: Region, new: Region, digest: Seq<u8>, left: Seq<char>, right: Seq<char>) -> bool {
    &&& new.name == old.name
    &&& new.closer == old.closer
    &&& new.children@.len() == 0
    &&& views_of(new.directives@) == drop_key(views_of(old.directives@), "store:"@).push("store:"@ + hex_of(digest))
    &&& new.opener@ == opener_for(old.opener@, left, right, old.name@, views_of(new.directives@))
}

/// `new` is `old` sealed with the payload text `blob`.
pub open spec fn sealed_as(old: Region, new: Region, blob: Seq<char>, left: Seq<char>, right: Seq<char>) -> bool {
    &&& new.name == old.name
    &&& new.closer == old.closer
    &&& new.children@.len() == 0
    &&& views_of(new.directives@) == drop_key(views_of(old.directives@), "prot:"@).push("prot:"@ + blob)
    &&& new.opener@ == opener_for(old.opener@, left, right, old.name@, views_of(new.directives@))
}

/// `new` is `old` with `key` dropped from its directives and with children
/// that are the tree of `body`, or none if `empty`.
pub open spec fn unwrapped_as(old: Region, new: Region, key: Seq<char>, body: Seq<char>, empty: bool, left: Seq<char>, right: Seq<char>) -> bool {
    &&& new.name == old.name
    &&& new.closer == old.closer
    &&& views_of(new.directives@) == drop_key(views_of(old.directives@), key)
    &&& new.opener@ == opener_for(old.opener@, left, right, old.name@, views_of(new.directives@))
    &&& if empty {
        new.children@.len() == 0
    } else {
        blocks_text(new.children@) == body && is_tree_of(new.children@, doc_lines(body), left, right)
    }
}

/// Removes the directive words that begin with `key`.
pub fn remove_key(ds: &Vec<String>, key: &str) -> (r: Vec<String>)
    ensures
        views_of(r@) == drop_key(views_of(ds@), key@),
{
    let ghost v = views_of(ds@);
    let mut out: Vec<String> = Vec::new();
    let mut k: usize = 0;
    assert(v.take(0) =~= Seq::<Seq<char>>::empty());
    while k < ds.len()
        invariant
            v == views_of(ds@),
            k <= ds@.len(),
            views_of(out@) == drop_key(v.take(k as int), key@),
        decreases ds@.len() - k,
    {
        assert(v.take(k as int + 1).drop_last() =~= v.take(k as int));
        assert(v.take(k as int + 1).last() == ds@[k as int]@);
        if !has_prefix(ds[k].as_str(), key) {
            let ghost before = out@;
            out.push(ds[k].clone());
            assert(views_of(out@) =~= views_of(before).push(ds@[k as int]@));
        }
        k = k + 1;
    }
    assert(v.take(ds@.len() as int) =~= v);
    out
}

/// The value of the last directive word that begins with `key`.
pub fn find_key(ds: &Vec<String>, key: &str) -> (r: Option<String>)
    ensures
        match key_value(views_of(ds@), key@) {
            Some(x) => r is Some && r->Some_0@ == x,
            None => r is None,
        },
{
    let ghost v = views_of(ds@);
    let mut found: Option<String> = None;
    let mut k: usize = 0;
    assert(v.take(0) =~= Seq::<Seq<char>>::empty());
    while k < ds.len()
        invariant
            v == views_of(ds@),
            k <= ds@.len(),
            match key_value(v.take(k as int), key@) {
                Some(x) => found is Some && found->Some_0@ == x,
                None => found is None,
            },
        decreases ds@.len() - k,
    {
        assert(v.take(k as int + 1).drop_last() =~= v.take(k as int));
        assert(v.take(k as int + 1).last() == ds@[k as int]@);
        let d = ds[k].as_str();
        if has_prefix(d, key) {
            found = Some(String::from_str(d.substring_char(key.unicode_len(), d.unicode_len())));
        }
        k = k + 1;
    }
    assert(v.take(ds@.len() as int) =~= v);
    found
}

/// A region like `reg` with other directives, children and opener line:
/// the opener keeps its leading blanks and is written for the new words.
fn rebuilt(reg: &Region, directives: Vec<String>, children: Vec<Block>, left: &str, right: &str) -> (r: Region)
    ensures
        r.name == reg.name,
        r.closer == reg.closer,
        r.directives@ == directives@,
        r.children@ == children@,
        r.opener@ == marker_text(
            marker_prefix(reg.opener@),
            left@,
            right@,
            seq!["BEGIN"@, reg.name@] + views_of(directives@),
        ),
{
    let n = blank_prefix(reg.opener.as_str());
    let prefix = reg.opener.as_str().substring_char(0, n);
    let opener = begin_marker(prefix, left, right, reg.name.as_str(), &directives);
    Region { name: reg.name.clone(), directives, opener, children, closer: reg.closer.clone() }
}

/// Moves a region's body to the store: the children go, and a `store:`
/// directive with the digest of the body takes the place of any earlier one.
pub fn store_region(reg: &Region, digest: &[u8], left: &str, right: &str) -> (r: Region)
    ensures
        stored_as(*reg, r, digest@, left@, right@),
{
    let mut ds = remove_key(&reg.directives, "store:");
    let mut word = String::from_str("store:");
    let hex = crate::crypto::hex_of_digest(digest);
    word.append(hex.as_str());
    let ghost before = ds@;
    ds.push(word);
    assert(views_of(ds@) =~= views_of(before).push("store:"@ + hex_of(digest@)));
    rebuilt(reg, ds, Vec::new(), left, right)
}

/// Brings a stored region's body back from the store. `body` is what the
/// store holds under the region's `store:` digest and `computed` the digest
/// of `body`. A region that also carries `prot:` keeps no children; any
/// other takes the blocks of `body` as children.
pub fn fetch_region(reg: &Region, body: &str, computed: &[u8], left: &str, right: &str) -> (r: Result<
    Region,
    &'static str,
>)
    ensures
        ({
            let ds = views_of(reg.directives@);
            let sealed = key_value(ds, "prot:"@) is Some;
            match key_value(ds, "store:"@) {
                None => r == Err::<Region, &'static str>("Region is not stored"),
                Some(h) => if h != hex_of(computed@) {
                    r == Err::<Region, &'static str>("CAS corruption")
                } else if !sealed && !crate::doc::nests(doc_lines(body@), left@, right@, 0, Seq::empty()) {
                    r is Err
                } else {
                    r is Ok && unwrapped_as(*reg, r->Ok_0, "store:"@, body@, sealed, left@, right@)
                },
            }
        }),
{
    let hex = match find_key(&reg.directives, "store:") {
        Some(h) => h,
        None => {
            return Err("Region is not stored");
        },
    };
    match check_cas_entry(hex.as_str(), computed) {
        Ok(()) => {},
        Err(e) => {
            return Err(e);
        },
    }
    let ds = remove_key(&reg.directives, "store:");
    if find_key(&reg.directives, "prot:").is_some() {
        return Ok(rebuilt(reg, ds, Vec::new(), left, right));
    }
    match parse_document(body, left, right) {
        Ok(children) => Ok(rebuilt(reg, ds, children, left, right)),
        Err(e) => Err(e),
    }
}

/// Seals a region: its children go, and a `prot:` directive with the text
/// of `blob` takes the place of any earlier one.
pub fn seal_region(reg: &Region, blob: &ProtBlob, left: &str, right: &str) -> (r: Region)
    ensures
        sealed_as(*reg, r, blob_text(blob.model()), left@, right@),
{
    let mut ds = remove_key(&reg.directives, "prot:");
    let mut word = String::from_str("prot:");
    let text = blob.to_text();
    word.append(text.as_str());
    let ghost before = ds@;
    ds.push(word);
    assert(views_of(ds@) =~= views_of(before).push("prot:"@ + blob_text(blob.model())));
    rebuilt(reg, ds, Vec::new(), left, right)
}

/// Opens a sealed region with its decrypted body: the blocks of
/// `plaintext` become its children and its `prot:` directive goes. When
/// `plaintext` does not nest, the error comes back and the region is left
/// as it was.
pub fn open_region(reg: &Region, plaintext: &str, left: &str, right: &str) -> (r: Result<
    Region,
    &'static str,
>)
    ensures
        r is Ok <==> crate::doc::nests(doc_lines(plaintext@), left@, right@, 0, Seq::empty()),
        r is Ok ==> unwrapped_as(*reg, r->Ok_0, "prot:"@, plaintext@, false, left@, right@),
{
    match parse_document(plaintext, left, right) {
        Ok(children) => {
            let ds = remove_key(&reg.directives, "prot:");
            Ok(rebuilt(reg, ds, children, left, right))
        },
        Err(e) => Err(e),
    }
}

/// The region names that each operation is asked for.
pub struct Ops {
    pub fetch: Vec<String>,
    pub decrypt: Vec<String>,
    pub encrypt: Vec<String>,
    pub store: Vec<String>,
}

/// The work that a region in `state` named `name` needs next. The first
/// pass brings bodies back (fetching a stored region that is to be
/// decrypted too); the second protects them, innermost regions first, and
/// fetches a stored region before encrypting it.
pub open spec fn pending_step(ops: Ops, name: Seq<char>, s: RegionState, second: bool) -> Option<Step> {
    let f = views_of(ops.fetch@).contains(name);
    let d = views_of(ops.decrypt@).contains(name);
    let e = views_of(ops.encrypt@).contains(name);
    let st = views_of(ops.store@).contains(name);
    if !second {
        if (f && step_applies(s, Step::Fetch)) || (d && s == RegionState::EncryptedAndStored) {
            Some(Step::Fetch)
        } else if d && s == RegionState::Encrypted {
            Some(Step::Decrypt)
        } else {
            None
        }
    } else {
        if e && s == RegionState::Plain {
            Some(Step::Encrypt)
        } else if e && s == RegionState::Stored {
            Some(Step::Fetch)
        } else if st && step_applies(s, Step::Store) {
            Some(Step::Store)
        } else {
            None
        }
    }
}

/// The work that region `r` needs next.
pub open spec fn region_pending(ops: Ops, r: Region, second: bool) -> Option<Step> {
    pending_step(ops, r.name@, state_of(views_of(r.directives@)), second)
}

/// The region that `path` leads to: an index among `bs`, then among the
/// children of the region found there, and so on.
pub open spec fn region_at(bs: Seq<Block>, path: Seq<usize>) -> Option<Region>
    decreases path.len(),
{
    if path.len() == 0 || path[0] >= bs.len() {
        None
    } else {
        match bs[path[0] as int] {
            Block::Text(_) => None,
            Block::Region(r) => if path.len() == 1 {
                Some(r)
            } else {
                region_at(r.children@, path.drop_first())
            },
        }
    }
}

/// Whether some region in `bs`, at any depth, needs work in this pass.
pub open spec fn any_pending(bs: Seq<Block>, ops: Ops, second: bool) -> bool {
    exists|p: Seq<usize>| #[trigger] region_at(bs, p) is Some && region_pending(ops, region_at(bs, p)->Some_0, second) is Some
}

fn wants(names: &Vec<String>, name: &str) -> (r: bool)
    ensures
        r == views_of(names@).contains(name@),
{
    names_contain(names, name)
}

/// The work that region `r` needs next.
pub fn pending_of(ops: &Ops, r: &Region, second: bool) -> (s: Option<Step>)
    ensures
        s == region_pending(*ops, *r, second),
{
    let state = region_state(&r.directives);
    let name = r.name.as_str();
    let f = wants(&ops.fetch, name);
    let d = wants(&ops.decrypt, name);
    let e = wants(&ops.encrypt, name);
    let st = wants(&ops.store, name);
    if !second {
        if (f && (state == RegionState::Stored || state == RegionState::EncryptedAndStored)) || (d
            && state == RegionState::EncryptedAndStored) {
            Some(Step::Fetch)
        } else if d && state == RegionState::Encrypted {
            Some(Step::Decrypt)
        } else {
            None
        }
    } else {
        if e && state == RegionState::Plain {
            Some(Step::Encrypt)
        } else if e && state == RegionState::Stored {
            Some(Step::Fetch)
        } else if st && (state == RegionState::Plain || state == RegionState::Encrypted) {
            Some(Step::Store)
        } else {
            None
        }
    }
}

/// A path to a region that needs work in this pass: in the first pass the
/// outermost first, in the second the innermost first.
pub fn find_pending(bs: &Vec<Block>, ops: &Ops, second: bool) -> (r: Option<Vec<usize>>)
    ensures
        match r {
            Some(p) => region_at(bs@, p@) is Some && region_pending(*ops, region_at(bs@, p@)->Some_0, second) is Some,
            None => !any_pending(bs@, *ops, second),
        },
    decreases bs,
{
    let mut i: usize = 0;
    while i < bs.len()
        invariant
            i <= bs@.len(),
            forall|p: Seq<usize>|
                #![trigger region_at(bs@, p)]
                p.len() > 0 && p[0] < i && region_at(bs@, p) is Some ==> region_pending(
                    *ops,
                    region_at(bs@, p)->Some_0,
                    second,
                ) is None,
        decreases bs@.len() - i,
    {
        match &bs[i] {
            Block::Text(_) => {
                proof {
                    assert forall|p: Seq<usize>|
                        #![trigger region_at(bs@, p)]
                        p.len() > 0 && p[0] == i && region_at(bs@, p) is Some implies false by {}
                }
            },
            Block::Region(reg) => {
                let own = pending_of(ops, reg, second);
                if !second && own.is_some() {
                    let mut p: Vec<usize> = Vec::new();
                    p.push(i);
                    return Some(p);
                }
                match find_pending(&reg.children, ops, second) {
                    Some(sub) => {
                        let mut p: Vec<usize> = Vec::new();
                        p.push(i);
                        let mut k: usize = 0;
                        while k < sub.len()
                            invariant
                                k <= sub@.len(),
                                p@ == seq![i] + sub@.take(k as int),
                            decreases sub@.len() - k,
                        {
                            p.push(sub[k]);
                            assert(sub@.take(k as int + 1) =~= sub@.take(k as int).push(sub@[k as int]));
                            assert(p@ =~= seq![i] + sub@.take(k as int + 1));
                            k = k + 1;
                        }
                        assert(sub@.take(sub@.len() as int) =~= sub@);
                        assert(p@.drop_first() =~= sub@);
                        return Some(p);
                    },
                    None => {},
                }
                if own.is_some() {
                    let mut p: Vec<usize> = Vec::new();
                    p.push(i);
                    return Some(p);
                }
                proof {
                    assert forall|p: Seq<usize>|
                        #![trigger region_at(bs@, p)]
                        p.len() > 0 && p[0] == i && region_at(bs@, p) is Some implies region_pending(
                            *ops,
                            region_at(bs@, p)->Some_0,
                            second,
                        ) is None by {
                        if p.len() > 1 {
                            assert(region_at(bs@, p) == region_at(reg.children@, p.drop_first()));
                        }
                    }
                }
            },
        }
        i = i + 1;
    }
    None
}

proof fn lemma_key_value_found(ds: Seq<Seq<char>>, key: Seq<char>)
    requires
        has_directive(ds, key),
    ensures
        key_value(ds, key) is Some,
    decreases ds.len(),
{
    let i = choose|i: int| 0 <= i < ds.len() && key.len() <= ds[i].len() && #[trigger] ds[i].subrange(0, key.len() as int) == key;
    if !starts_with(ds.last(), key) {
        assert(i != ds.len() - 1);
        assert(ds.drop_last()[i] == ds[i]);
        lemma_key_value_found(ds.drop_last(), key);
    }
}

/// The region that `path[k..]` leads to among `bs`.
pub fn get_region<'a>(bs: &'a Vec<Block>, path: &Vec<usize>, k: usize) -> (r: Option<&'a Region>)
    requires
        k <= path@.len(),
    ensures
        match r {
            Some(x) => region_at(bs@, path@.skip(k as int)) == Some(*x),
            None => region_at(bs@, path@.skip(k as int)) is None,
        },
    decreases path@.len() - k,
{
    if k >= path.len() || path[k] >= bs.len() {
        return None;
    }
    let ghost rest = path@.skip(k as int);
    assert(rest[0] == path@[k as int]);
    match &bs[path[k]] {
        Block::Text(_) => None,
        Block::Region(reg) => {
            if k + 1 == path.len() {
                Some(reg)
            } else {
                assert(rest.drop_first() =~= path@.skip(k as int + 1));
                get_region(&reg.children, path, k + 1)
            }
        },
    }
}

/// Puts `new` in the place of the region that `path[k..]` leads to; the
/// other blocks at each level stay as they were.
pub fn replace_at(bs: Vec<Block>, path: &Vec<usize>, k: usize, new: Region) -> (r: Vec<Block>)
    requires
        k <= path@.len(),
        region_at(bs@, path@.skip(k as int)) is Some,
    ensures
        region_at(r@, path@.skip(k as int)) == Some(new),
        r@.len() == bs@.len(),
        forall|j: int| 0 <= j < bs@.len() && j != path@[k as int] ==> r@[j] == bs@[j],
    decreases path@.len() - k,
{
    let ghost rest = path@.skip(k as int);
    assert(rest.len() > 0);
    assert(rest[0] == path@[k as int]);
    let idx = path[k];
    let mut bs = bs;
    let ghost old_bs = bs@;
    let old = bs.remove(idx);
    match old {
        Block::Text(s) => {
            bs.insert(idx, Block::Text(s));
            bs
        },
        Block::Region(reg) => {
            if path.len() - k == 1 {
                bs.insert(idx, Block::Region(new));
                assert forall|j: int| 0 <= j < old_bs.len() && j != idx implies bs@[j] == old_bs[j] by {
                    if j < idx {
                    } else {
                    }
                }
                bs
            } else {
                assert(rest.drop_first() =~= path@.skip(k as int + 1));
                let Region { name, directives, opener, children, closer } = reg;
                let children = replace_at(children, path, k + 1, new);
                bs.insert(idx, Block::Region(Region { name, directives, opener, children, closer }));
                bs
            }
        },
    }
}

/// A piece of outside work that a region needs.
pub enum Request {
    /// Read the store's entry under this digest, and digest what was read.
    ReadStore { digest_hex: String },
    /// Derive the region's key and decrypt this payload text.
    Decrypt { name: String, payload: String },
    /// Derive the region's key and encrypt this body.
    Encrypt { name: String, plaintext: String },
    /// Write this body to the store, and give its digest.
    WriteStore { body: String },
}

/// What the outside work gave.
pub enum Answer {
    /// The entry read from the store, with the digest of its bytes.
    Body { text: String, digest: Vec<u8> },
    /// The decrypted body.
    Plaintext(String),
    /// The encrypted body as a payload.
    Sealed(ProtBlob),
    /// The digest under which the body was stored.
    Stored(Vec<u8>),
}

/// What the walk asks for next.
pub enum Action {
    /// Outside work for the region at `path`; its answer goes to
    /// `apply_answer` with the same path.
    Ask { path: Vec<usize>, request: Request },
    /// Nothing is left to do.
    Done,
}

/// A transformation in progress: the document's blocks, and whether the
/// walk is in its second pass (protecting) or its first (bringing back).
pub struct Walk {
    pub blocks: Vec<Block>,
    pub second: bool,
}

/// Whether `q` is the request for `step` on region `x`.
pub open spec fn request_for(x: Region, step: Step, q: Request) -> bool {
    let ds = views_of(x.directives@);
    match step {
        Step::Fetch => q matches Request::ReadStore { digest_hex } && Some(digest_hex@) == key_value(ds, "store:"@),
        Step::Decrypt => q matches Request::Decrypt { name, payload } && name@ == x.name@ && Some(payload@) == key_value(ds, "prot:"@),
        Step::Encrypt => q matches Request::Encrypt { name, plaintext } && name@ == x.name@ && plaintext@ == blocks_text(x.children@),
        Step::Store => q matches Request::WriteStore { body } && body@ == (if state_of(ds) == RegionState::Encrypted {
            key_value(ds, "prot:"@)->Some_0
        } else {
            blocks_text(x.children@)
        }),
    }
}

/// Decides the walk's next outside work: a region that needs work in the
/// current pass, and the request for it. When the first pass has nothing
/// left the walk moves to the second; when that has nothing left, it is done.
pub fn next_action(walk: &mut Walk, ops: &Ops) -> (a: Action)
    ensures
        final(walk).blocks == old(walk).blocks,
        final(walk).second == (old(walk).second || a is Done || find_second(old(walk).blocks@, *ops, old(walk).second)),
        match a {
            Action::Done => !any_pending(final(walk).blocks@, *ops, false) || old(walk).second,
            Action::Ask { path, request } => region_at(final(walk).blocks@, path@) is Some && ({
                let x = region_at(final(walk).blocks@, path@)->Some_0;
                region_pending(*ops, x, final(walk).second) is Some && request_for(
                    x,
                    region_pending(*ops, x, final(walk).second)->Some_0,
                    request,
                )
            }),
        },
        a is Done ==> final(walk).second && !any_pending(final(walk).blocks@, *ops, true),
{
    let mut found = find_pending(&walk.blocks, ops, walk.second);
    if found.is_none() && !walk.second {
        walk.second = true;
        found = find_pending(&walk.blocks, ops, true);
    }
    let path = match found {
        Some(p) => p,
        None => {
            return Action::Done;
        },
    };
    assert(path@.skip(0) =~= path@);
    let reg = match get_region(&walk.blocks, &path, 0) {
        Some(r) => r,
        None => {
            return Action::Done;
        },
    };
    let ghost ds = views_of(reg.directives@);
    let step = match pending_of(ops, reg, walk.second) {
        Some(s) => s,
        None => {
            return Action::Done;
        },
    };
    let request = match step {
        Step::Fetch => {
            proof {
                lemma_key_value_found(ds, "store:"@);
            }
            let h = find_key(&reg.directives, "store:");
            Request::ReadStore { digest_hex: h.unwrap() }
        },
        Step::Decrypt => {
            proof {
                lemma_key_value_found(ds, "prot:"@);
            }
            let v = find_key(&reg.directives, "prot:");
            Request::Decrypt { name: reg.name.clone(), payload: v.unwrap() }
        },
        Step::Encrypt => Request::Encrypt {
            name: reg.name.clone(),
            plaintext: crate::doc::blocks_to_string(&reg.children),
        },
        Step::Store => {
            if region_state(&reg.directives) == RegionState::Encrypted {
                proof {
                    lemma_key_value_found(ds, "prot:"@);
                }
                let v = find_key(&reg.directives, "prot:");
                Request::WriteStore { body: v.unwrap() }
            } else {
                Request::WriteStore { body: crate::doc::blocks_to_string(&reg.children) }
            }
        },
    };
    Action::Ask { path, request }
}

/// Whether the first pass is over: it has no region left to work on.
pub open spec fn find_second(bs: Seq<Block>, ops: Ops, second: bool) -> bool {
    !second && !any_pending(bs, ops, false)
}

/// Whether answer `a` can be put into region `x`: a body read from the
/// store must have the digest of its `store:` directive and, for a region
/// without `prot:`, nest properly; a decrypted body must nest properly.
pub open spec fn answer_fits(x: Region, a: Answer, left: Seq<char>, right: Seq<char>) -> bool {
    let ds = views_of(x.directives@);
    match a {
        Answer::Body { text, digest } => key_value(ds, "store:"@) == Some(hex_of(digest@)) && (key_value(
            ds,
            "prot:"@,
        ) is Some || crate::doc::nests(doc_lines(text@), left, right, 0, Seq::empty())),
        Answer::Plaintext(p) => crate::doc::nests(doc_lines(p@), left, right, 0, Seq::empty()),
        Answer::Sealed(_) => true,
        Answer::Stored(_) => true,
    }
}

/// What region `x` becomes with answer `a`.
pub open spec fn answered_as(x: Region, new: Region, a: Answer, left: Seq<char>, right: Seq<char>) -> bool {
    match a {
        Answer::Body { text, digest } => unwrapped_as(
            x,
            new,
            "store:"@,
            text@,
            key_value(views_of(x.directives@), "prot:"@) is Some,
            left,
            right,
        ),
        Answer::Plaintext(p) => unwrapped_as(x, new, "prot:"@, p@, false, left, right),
        Answer::Sealed(b) => sealed_as(x, new, blob_text(b.model()), left, right),
        Answer::Stored(d) => stored_as(x, new, d@, left, right),
    }
}

/// Puts the answer to a request into the region at `path`. On any error
/// the walk is left exactly as it was.
pub fn apply_answer(walk: &mut Walk, path: &Vec<usize>, answer: Answer, left: &str, right: &str) -> (r:
    Result<(), &'static str>)
    ensures
        r is Ok <==> region_at(old(walk).blocks@, path@) is Some && answer_fits(
            region_at(old(walk).blocks@, path@)->Some_0,
            answer,
            left@,
            right@,
        ),
        r is Err ==> *final(walk) == *old(walk),
        r is Ok ==> final(walk).second == old(walk).second && region_at(final(walk).blocks@, path@) is Some
            && answered_as(
            region_at(old(walk).blocks@, path@)->Some_0,
            region_at(final(walk).blocks@, path@)->Some_0,
            answer,
            left@,
            right@,
        ),
{
    assert(path@.skip(0) =~= path@);
    let reg = match get_region(&walk.blocks, path, 0) {
        Some(x) => x,
        None => {
            return Err("No region at that place");
        },
    };
    let new = match answer {
        Answer::Body { text, digest } => {
            match fetch_region(reg, text.as_str(), digest.as_slice(), left, right) {
                Ok(x) => x,
                Err(e) => {
                    return Err(e);
                },
            }
        },
        Answer::Plaintext(p) => {
            match open_region(reg, p.as_str(), left, right) {
                Ok(x) => x,
                Err(e) => {
                    return Err(e);
                },
            }
        },
        Answer::Sealed(b) => seal_region(reg, &b, left, right),
        Answer::Stored(d) => store_region(reg, d.as_slice(), left, right),
    };
    let mut blocks: Vec<Block> = Vec::new();
    std::mem::swap(&mut blocks, &mut walk.blocks);
    walk.blocks = replace_at(blocks, path, 0, new);
    Ok(())
}

/// Regions named in no operation's set are never worked on: they need no
/// work in either pass, so the walk neither asks for them nor rewrites them.
pub proof fn lemma_untargeted_untouched(ops: Ops, x: Region, second: bool)
    requires
        !views_of(ops.fetch@).contains(x.name@),
        !views_of(ops.decrypt@).contains(x.name@),
        !views_of(ops.encrypt@).contains(x.name@),
        !views_of(ops.store@).contains(x.name@),
    ensures
        region_pending(ops, x, second) is None,
{
}

} // verus!
