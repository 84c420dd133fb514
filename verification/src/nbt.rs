//! A tree of NBT tags as the level logic reads and edits it, with the
//! gzip framing of the files that hold one.

use std::io::{Read, Write};
use vstd::prelude::*;
use crate::bigendian::copy_range;
use crate::text::{chars_of, eq_chars, string_from};

verus! {

/// One NBT tag. Float and double tags keep their IEEE-754 bits.
#[derive(Debug)]
pub enum Nbt {
    Byte(i8),
    Short(i16),
    Int(i32),
    Long(i64),
    Float(u32),
    Double(u64),
    Text(String),
    ByteArray(Vec<i8>),
    IntArray(Vec<i32>),
    LongArray(Vec<i64>),
    List(Vec<Nbt>),
    Compound(Vec<(String, Nbt)>),
}

/// A tag with its strings and arrays as sequences.
pub enum NbtView {
    Byte(i8),
    Short(i16),
    Int(i32),
    Long(i64),
    Float(u32),
    Double(u64),
    Text(Seq<char>),
    ByteArray(Seq<i8>),
    IntArray(Seq<i32>),
    LongArray(Seq<i64>),
    List(Seq<NbtView>),
    Compound(Seq<(Seq<char>, NbtView)>),
}

pub open spec fn nbt_view(n: Nbt) -> NbtView
    decreases n,
{
    match n {
        Nbt::Byte(v) => NbtView::Byte(v),
        Nbt::Short(v) => NbtView::Short(v),
        Nbt::Int(v) => NbtView::Int(v),
        Nbt::Long(v) => NbtView::Long(v),
        Nbt::Float(v) => NbtView::Float(v),
        Nbt::Double(v) => NbtView::Double(v),
        Nbt::Text(s) => NbtView::Text(s@),
        Nbt::ByteArray(a) => NbtView::ByteArray(a@),
        Nbt::IntArray(a) => NbtView::IntArray(a@),
        Nbt::LongArray(a) => NbtView::LongArray(a@),
        Nbt::List(l) => NbtView::List(list_view(l@)),
        Nbt::Compound(c) => NbtView::Compound(entries_view(c@)),
    }
}

/// The views of a list's tags.
pub open spec fn list_view(s: Seq<Nbt>) -> Seq<NbtView>
    decreases s,
{
    if s.len() == 0 {
        seq![]
    } else {
        seq![nbt_view(s[0])] + list_view(s.subrange(1, s.len() as int))
    }
}

/// The views of a compound's entries, in order.
pub open spec fn entries_view(s: Seq<(String, Nbt)>) -> Seq<(Seq<char>, NbtView)>
    decreases s,
{
    if s.len() == 0 {
        seq![]
    } else {
        seq![(s[0].0@, nbt_view(s[0].1))] + entries_view(s.subrange(1, s.len() as int))
    }
}

impl View for Nbt {
    type V = NbtView;

    open spec fn view(&self) -> NbtView {
        nbt_view(*self)
    }
}

/// The views of a compound's entries, one by one.
pub proof fn lemma_entries_view(s: Seq<(String, Nbt)>)
    ensures
        entries_view(s).len() == s.len(),
        forall|i: int| 0 <= i < s.len() ==> #[trigger] entries_view(s)[i] == (s[i].0@, nbt_view(s[i].1)),
    decreases s.len(),
{
    if s.len() > 0 {
        let t = s.subrange(1, s.len() as int);
        lemma_entries_view(t);
        assert forall|i: int| 0 <= i < s.len() implies #[trigger] entries_view(s)[i] == (
            s[i].0@,
            nbt_view(s[i].1),
        ) by {
            if i > 0 {
                assert(t[i - 1] == s[i]);
            }
        }
    }
}

/// `j` is the first entry named `k`.
pub open spec fn is_first_key(es: Seq<(Seq<char>, NbtView)>, k: Seq<char>, j: int) -> bool {
    &&& 0 <= j < es.len()
    &&& es[j].0 == k
    &&& forall|m: int| 0 <= m < j ==> (#[trigger] es[m]).0 != k
}

/// Position of the first entry named `k`, -1 when there is none.
pub open spec fn first_key(es: Seq<(Seq<char>, NbtView)>, k: Seq<char>) -> int {
    if exists|j: int| is_first_key(es, k, j) {
        choose|j: int| is_first_key(es, k, j)
    } else {
        -1
    }
}

/// The value of the first entry named `k`.
pub open spec fn compound_get(es: Seq<(Seq<char>, NbtView)>, k: Seq<char>) -> Option<NbtView> {
    let j = first_key(es, k);
    if j >= 0 {
        Some(es[j].1)
    } else {
        None
    }
}

/// `es` with the first entry named `k` set to `v`, or `(k, v)` appended.
pub open spec fn compound_put(es: Seq<(Seq<char>, NbtView)>, k: Seq<char>, v: NbtView) -> Seq<
    (Seq<char>, NbtView),
> {
    let j = first_key(es, k);
    if j >= 0 {
        es.update(j, (k, v))
    } else {
        es.push((k, v))
    }
}

/// `es` with key `inner` set to `v` inside the compound under `outer`;
/// unchanged when `outer` is missing or not a compound.
pub open spec fn put_inner(
    es: Seq<(Seq<char>, NbtView)>,
    outer: Seq<char>,
    inner: Seq<char>,
    v: NbtView,
) -> Seq<(Seq<char>, NbtView)> {
    match compound_get(es, outer) {
        Some(NbtView::Compound(c)) => compound_put(es, outer, NbtView::Compound(compound_put(c, inner, v))),
        _ => es,
    }
}

/// Whether the entry named `k` is a compound.
pub open spec fn has_compound(es: Seq<(Seq<char>, NbtView)>, k: Seq<char>) -> bool {
    compound_get(es, k) matches Some(NbtView::Compound(_))
}

pub proof fn lemma_first_key_at(es: Seq<(Seq<char>, NbtView)>, k: Seq<char>, i: int)
    requires
        is_first_key(es, k, i),
    ensures
        first_key(es, k) == i,
{
    let j = choose|j: int| is_first_key(es, k, j);
    assert(is_first_key(es, k, j));
    if j < i {
        assert(es[j].0 != k);
    }
    if i < j {
        assert(es[i].0 != k);
    }
}

pub proof fn lemma_first_key_none(es: Seq<(Seq<char>, NbtView)>, k: Seq<char>)
    requires
        forall|m: int| 0 <= m < es.len() ==> (#[trigger] es[m]).0 != k,
    ensures
        first_key(es, k) == -1,
{
    if exists|j: int| is_first_key(es, k, j) {
        let j = choose|j: int| is_first_key(es, k, j);
        assert(es[j].0 != k);
    }
}

/// After setting `k`, reading `k` gives the value set.
pub proof fn lemma_put_get_same(es: Seq<(Seq<char>, NbtView)>, k: Seq<char>, v: NbtView)
    ensures
        compound_get(compound_put(es, k, v), k) == Some(v),
{
    let r = compound_put(es, k, v);
    let j = first_key(es, k);
    if j >= 0 {
        let w = choose|w: int| is_first_key(es, k, w);
        assert(is_first_key(es, k, w));
        assert(is_first_key(r, k, j)) by {
            assert forall|m: int| 0 <= m < j implies (#[trigger] r[m]).0 != k by {
                assert(r[m] == es[m]);
            }
        }
        lemma_first_key_at(r, k, j);
    } else {
        assert forall|m: int| 0 <= m < es.len() implies (#[trigger] es[m]).0 != k by {
            if es[m].0 == k {
                assert(exists|w: int| is_first_key(es, k, w)) by {
                    lemma_some_first_key(es, k, m);
                }
            }
        }
        assert(is_first_key(r, k, es.len() as int)) by {
            assert forall|m: int| 0 <= m < es.len() implies (#[trigger] r[m]).0 != k by {
                assert(r[m] == es[m]);
            }
        }
        lemma_first_key_at(r, k, es.len() as int);
    }
}

/// Where some entry is named `k`, a first one is.
pub proof fn lemma_some_first_key(es: Seq<(Seq<char>, NbtView)>, k: Seq<char>, m: int)
    requires
        0 <= m < es.len(),
        es[m].0 == k,
    ensures
        exists|w: int| is_first_key(es, k, w),
    decreases m,
{
    if forall|p: int| 0 <= p < m ==> (#[trigger] es[p]).0 != k {
        assert(is_first_key(es, k, m));
    } else {
        let p = choose|p: int| 0 <= p < m && (#[trigger] es[p]).0 != k == false;
        lemma_some_first_key(es, k, p);
    }
}

/// Setting one key leaves what another key reads.
pub proof fn lemma_put_get_other(es: Seq<(Seq<char>, NbtView)>, k: Seq<char>, v: NbtView, k2: Seq<char>)
    requires
        k != k2,
    ensures
        compound_get(compound_put(es, k, v), k2) == compound_get(es, k2),
{
    let r = compound_put(es, k, v);
    let j = first_key(es, k);
    if j >= 0 {
        let w = choose|w: int| is_first_key(es, k, w);
        assert(is_first_key(es, k, w));
    }
    assert forall|m: int| 0 <= m < es.len() implies (#[trigger] r[m]).0 == k2 <==> es[m].0 == k2 by {
        if j >= 0 && m == j {
        } else {
            assert(r[m] == es[m]);
        }
    }
    if exists|w: int| is_first_key(es, k2, w) {
        let w = choose|w: int| is_first_key(es, k2, w);
        assert(is_first_key(es, k2, w));
        assert(is_first_key(r, k2, w)) by {
            assert forall|m: int| 0 <= m < w implies (#[trigger] r[m]).0 != k2 by {
                assert(es[m].0 != k2);
            }
            assert(r[w].0 == k2);
        }
        lemma_first_key_at(r, k2, w);
        if j >= 0 && w == j {
            assert(false);
        } else {
            assert(r[w] == es[w]);
        }
    } else {
        assert forall|m: int| 0 <= m < r.len() implies (#[trigger] r[m]).0 != k2 by {
            if m < es.len() {
                if es[m].0 == k2 {
                    lemma_some_first_key(es, k2, m);
                }
            }
        }
        lemma_first_key_none(r, k2);
    }
}

/// Position of the first entry named `key`.
pub fn entry_index(es: &Vec<(String, Nbt)>, key: &str) -> (r: Option<usize>)
    ensures
        match r {
            Some(j) => j < es@.len() && first_key(entries_view(es@), key@) == j as int,
            None => first_key(entries_view(es@), key@) == -1,
        },
{
    proof {
        lemma_entries_view(es@);
    }
    let ghost ev = entries_view(es@);
    let kc = chars_of(key);
    let mut i: usize = 0;
    while i < es.len()
        invariant
            i <= es@.len(),
            ev == entries_view(es@),
            ev.len() == es@.len(),
            forall|m: int| 0 <= m < es@.len() ==> #[trigger] ev[m] == (es@[m].0@, nbt_view(es@[m].1)),
            kc@ == key@,
            forall|m: int| 0 <= m < i ==> (#[trigger] ev[m]).0 != key@,
        decreases es.len() - i,
    {
        let c = chars_of(es[i].0.as_str());
        if eq_chars(&c, &kc) {
            assert(ev[i as int].0 == key@);
            proof {
                lemma_first_key_at(ev, key@, i as int);
            }
            return Some(i);
        }
        assert(ev[i as int].0 != key@);
        i += 1;
    }
    proof {
        lemma_first_key_none(ev, key@);
    }
    None
}

/// Sets the first entry named `key` to `v`, or appends `(key, v)`.
pub fn compound_set(es: &mut Vec<(String, Nbt)>, key: &str, v: Nbt)
    ensures
        entries_view(final(es)@) == compound_put(entries_view(old(es)@), key@, v@),
{
    proof {
        lemma_entries_view(es@);
    }
    let ghost ev = entries_view(es@);
    let ghost vv = v@;
    match entry_index(es, key) {
        Some(j) => {
            es.set(j, (string_from(key), v));
            proof {
                lemma_entries_view(es@);
            }
            assert(entries_view(es@) =~= ev.update(j as int, (key@, vv)));
        },
        None => {
            es.push((string_from(key), v));
            proof {
                lemma_entries_view(es@);
            }
            assert(entries_view(es@) =~= ev.push((key@, vv)));
        },
    }
}

/// Whether the entry named `key` is a compound.
pub fn is_compound_at(es: &Vec<(String, Nbt)>, key: &str) -> (r: bool)
    ensures
        r == has_compound(entries_view(es@), key@),
{
    proof {
        lemma_entries_view(es@);
    }
    match entry_index(es, key) {
        Some(j) => match &es[j].1 {
            Nbt::Compound(_) => true,
            _ => false,
        },
        None => false,
    }
}

/// Sets `inner` to `v` inside the compound under `outer`, if there is one.
pub fn compound_set_inner(es: &mut Vec<(String, Nbt)>, outer: &str, inner: &str, v: Nbt)
    ensures
        entries_view(final(es)@) == put_inner(entries_view(old(es)@), outer@, inner@, v@),
{
    proof {
        lemma_entries_view(es@);
    }
    let ghost ev = entries_view(es@);
    let ghost vv = v@;
    match entry_index(es, outer) {
        None => {},
        Some(j) => {
            let ghost old_es = es@;
            let (k, cur) = es.remove(j);
            match cur {
                Nbt::Compound(mut c) => {
                    proof {
                        lemma_entries_view(c@);
                    }
                    let ghost cv = entries_view(c@);
                    assert(ev[j as int].1 == NbtView::Compound(cv));
                    compound_set(&mut c, inner, v);
                    let ghost nc = NbtView::Compound(entries_view(c@));
                    es.insert(j, (string_from(outer), Nbt::Compound(c)));
                    proof {
                        lemma_entries_view(es@);
                    }
                    assert(entries_view(es@) =~= ev.update(j as int, (outer@, nc)));
                },
                other => {
                    es.insert(j, (k, other));
                    proof {
                        lemma_entries_view(es@);
                    }
                    assert(es@ =~= old_es);
                },
            }
        },
    }
}

/// What `flate2`'s gzip decoder reads from `b` to its end (`None` when the
/// stream is not valid gzip).
pub uninterp spec fn gunzip_result(b: Seq<u8>) -> Option<Seq<u8>>;

/// What `flate2`'s gzip encoder at the default level writes for `b`.
pub uninterp spec fn gzip_result(b: Seq<u8>) -> Seq<u8>;

/// Calls `flate2::read::GzDecoder::new(b).read_to_end`; the contract claims
/// only that the outcome is a function of `b`, named `gunzip_result`.
#[verifier::external_body]
fn gunzip(b: &[u8]) -> (r: Option<Vec<u8>>)
    ensures
        match r {
            Some(v) => gunzip_result(b@) == Some(v@),
            None => gunzip_result(b@) is None,
        },
{
    let mut out = Vec::new();
    match flate2::read::GzDecoder::new(b).read_to_end(&mut out) {
        Ok(_) => Some(out),
        Err(_) => None,
    }
}

/// Calls `flate2::write::GzEncoder` over a `Vec` at `Compression::default()`,
/// writes `b` and finishes. The contract claims that this succeeds and gives
/// `gzip_result(b)`: the encoder's only error paths are a refusing sink (a
/// `Vec` never refuses) and a compressor error, which the default level
/// does not produce.
#[verifier::external_body]
fn gzip(b: &[u8]) -> (r: Option<Vec<u8>>)
    ensures
        r is Some,
        r->Some_0@ == gzip_result(b@),
{
    let mut e = flate2::write::GzEncoder::new(Vec::new(), flate2::Compression::default());
    match e.write_all(b) {
        Ok(()) => {},
        Err(_) => return None,
    }
    e.finish().ok()
}

/// The NBT bytes of a file read from disk: the gunzipped stream when it
/// decodes to something, else the bytes as they are.
pub open spec fn nbt_payload(raw: Seq<u8>) -> Seq<u8> {
    match gunzip_result(raw) {
        Some(v) => if v.len() > 0 {
            v
        } else {
            raw
        },
        None => raw,
    }
}

/// The NBT bytes held by a possibly gzipped file.
pub fn unpack_nbt_file(raw: &[u8]) -> (r: Vec<u8>)
    ensures
        r@ == nbt_payload(raw@),
{
    match gunzip(raw) {
        Some(v) => if v.len() > 0 {
            v
        } else {
            copy_range(raw, 0, raw.len())
        },
        None => copy_range(raw, 0, raw.len()),
    }
}

/// The gzipped file holding NBT bytes.
pub fn pack_nbt_file(nbt: &[u8]) -> (r: Vec<u8>)
    ensures
        r@ == gzip_result(nbt@),
{
    match gzip(nbt) {
        Some(v) => v,
        None => Vec::new(),
    }
}

/// An integer tag's value.
pub open spec fn int_of(v: NbtView) -> Option<i64> {
    match v {
        NbtView::Byte(n) => Some(n as i64),
        NbtView::Short(n) => Some(n as i64),
        NbtView::Int(n) => Some(n as i64),
        NbtView::Long(n) => Some(n),
        _ => None,
    }
}

/// A string tag's text.
pub open spec fn text_of(v: NbtView) -> Option<Seq<char>> {
    match v {
        NbtView::Text(s) => Some(s),
        _ => None,
    }
}

/// The entry named `k` of a compound tag.
pub open spec fn child(v: Option<NbtView>, k: Seq<char>) -> Option<NbtView> {
    match v {
        Some(NbtView::Compound(es)) => compound_get(es, k),
        _ => None,
    }
}

/// The entry named `key` of a compound tag, if `n` is one and has it.
pub fn child_of<'a>(n: Option<&'a Nbt>, key: &str) -> (r: Option<&'a Nbt>)
    ensures
        match r {
            Some(c) => child(
                match n {
                    Some(m) => Some(m@),
                    None => None,
                },
                key@,
            ) == Some(c@),
            None => child(
                match n {
                    Some(m) => Some(m@),
                    None => None,
                },
                key@,
            ) is None,
        },
{
    match n {
        Some(Nbt::Compound(es)) => {
            proof {
                lemma_entries_view(es@);
            }
            match entry_index(es, key) {
                Some(j) => Some(&es[j].1),
                None => None,
            }
        },
        _ => None,
    }
}

pub fn int_value(n: Option<&Nbt>) -> (r: Option<i64>)
    ensures
        r == match n {
            Some(m) => int_of(m@),
            None => None,
        },
{
    match n {
        Some(Nbt::Byte(v)) => Some(*v as i64),
        Some(Nbt::Short(v)) => Some(*v as i64),
        Some(Nbt::Int(v)) => Some(*v as i64),
        Some(Nbt::Long(v)) => Some(*v),
        _ => None,
    }
}

pub fn text_value(n: Option<&Nbt>) -> (r: Option<String>)
    ensures
        match r {
            Some(s) => n is Some && text_of(n->Some_0@) == Some(s@),
            None => n is None || text_of(n->Some_0@) is None,
        },
{
    match n {
        Some(Nbt::Text(s)) => Some(s.clone()),
        _ => None,
    }
}

} // verus!