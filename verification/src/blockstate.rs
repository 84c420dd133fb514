//! Named block states as stored in section palettes, such as
//! `minecraft:oak_log[axis=y]` or `minecraft:stone`.

use vstd::prelude::*;
use crate::text::{
    append, append_str, chars_of, ends_with_str, eq_chars, eq_str, join, join_chars,
    rsplit_once, rsplit_once_chars, slice_vec, split, split_chars, split_once, split_once_chars,
    string_from, string_of, strip_suffix, trim, trim_chars, trimmed, views, ends_with,
};

verus! {

/// A property list as character sequences.
pub type PropsView = Seq<(Seq<char>, Seq<char>)>;

/// A block state as character sequences: its name and its properties in
/// key order.
#[verifier::ext_equal]
pub struct BlockStateView {
    pub name: Seq<char>,
    pub props: PropsView,
}

/// Named block state. `properties` is kept in increasing key order with
/// each key once, as a sorted map would iterate it.
#[derive(Debug, Hash)]
pub struct BlockState {
    pub(crate) name: String,
    pub(crate) properties: Vec<(String, String)>,
}

pub open spec fn props_view(p: Seq<(String, String)>) -> PropsView {
    p.map_values(|e: (String, String)| (e.0@, e.1@))
}

/// Keys in strictly increasing order, so each key occurs once.
pub open spec fn keys_ascending(p: PropsView) -> bool {
    forall|i: int, j: int| 0 <= i < j < p.len() ==> seq_lt(#[trigger] p[i].0, #[trigger] p[j].0)
}

impl BlockState {
    #[verifier::type_invariant]
    pub(crate) closed spec fn props_sorted(self) -> bool {
        keys_ascending(props_view(self.properties@))
    }
}

impl View for BlockState {
    type V = BlockStateView;

    closed spec fn view(&self) -> BlockStateView {
        BlockStateView { name: self.name@, props: props_view(self.properties@) }
    }
}

/// Byte-wise (equivalently code-point-wise) lexicographic order, the order
/// of `String`'s `Ord`.
pub open spec fn seq_lt(a: Seq<char>, b: Seq<char>) -> bool
    decreases a.len(),
{
    if a.len() == 0 {
        b.len() > 0
    } else if b.len() == 0 {
        false
    } else if a[0] != b[0] {
        a[0] < b[0]
    } else {
        seq_lt(a.drop_first(), b.drop_first())
    }
}

/// Inserting `(k, v)` into a property list kept in key order: an equal key
/// has its value replaced, otherwise the pair goes before the first greater key.
pub open spec fn props_insert(p: PropsView, k: Seq<char>, v: Seq<char>) -> PropsView
    decreases p.len(),
{
    if p.len() == 0 {
        seq![(k, v)]
    } else if p[0].0 == k {
        seq![(k, v)] + p.drop_first()
    } else if seq_lt(k, p[0].0) {
        seq![(k, v)] + p
    } else {
        seq![p[0]] + props_insert(p.drop_first(), k, v)
    }
}

/// `seq_lt` is transitive.
pub proof fn lemma_seq_lt_trans(a: Seq<char>, b: Seq<char>, c: Seq<char>)
    requires
        seq_lt(a, b),
        seq_lt(b, c),
    ensures
        seq_lt(a, c),
    decreases a.len(),
{
    if a.len() > 0 && b.len() > 0 && c.len() > 0 && a[0] == b[0] && b[0] == c[0] {
        lemma_seq_lt_trans(a.drop_first(), b.drop_first(), c.drop_first());
    }
}

/// Two different sequences are ordered one way or the other.
pub proof fn lemma_seq_lt_total(a: Seq<char>, b: Seq<char>)
    requires
        a != b,
    ensures
        seq_lt(a, b) || seq_lt(b, a),
    decreases a.len(),
{
    if a.len() == 0 && b.len() == 0 {
        assert(a =~= b);
    }
    if a.len() > 0 && b.len() > 0 && a[0] == b[0] {
        if a.drop_first() == b.drop_first() {
            assert(a.drop_first().len() == b.drop_first().len());
            assert(a.len() == b.len());
            assert forall|i: int| 0 <= i < a.len() implies a[i] == b[i] by {
                if i > 0 {
                    assert(a[i] == a.drop_first()[i - 1]);
                    assert(b[i] == b.drop_first()[i - 1]);
                }
            }
            assert(a =~= b);
        }
        lemma_seq_lt_total(a.drop_first(), b.drop_first());
    }
}

/// Every key of an insertion result stays above a bound that the old keys
/// and the new key are above.
proof fn lemma_props_insert_above(p: PropsView, k: Seq<char>, v: Seq<char>, x: Seq<char>)
    requires
        forall|i: int| 0 <= i < p.len() ==> seq_lt(x, #[trigger] p[i].0),
        seq_lt(x, k),
    ensures
        forall|i: int|
            0 <= i < props_insert(p, k, v).len() ==> seq_lt(x, #[trigger] props_insert(p, k, v)[i].0),
    decreases p.len(),
{
    let r = props_insert(p, k, v);
    if p.len() == 0 {
    } else if p[0].0 == k {
        assert forall|i: int| 0 <= i < r.len() implies seq_lt(x, #[trigger] r[i].0) by {
            if i > 0 {
                assert(r[i] == p[i]);
            }
        }
    } else if seq_lt(k, p[0].0) {
        assert forall|i: int| 0 <= i < r.len() implies seq_lt(x, #[trigger] r[i].0) by {
            if i > 0 {
                assert(r[i] == p[i - 1]);
            }
        }
    } else {
        let t = p.drop_first();
        assert forall|i: int| 0 <= i < t.len() implies seq_lt(x, #[trigger] t[i].0) by {
            assert(t[i] == p[i + 1]);
        }
        lemma_props_insert_above(t, k, v, x);
        let rt = props_insert(t, k, v);
        assert forall|i: int| 0 <= i < r.len() implies seq_lt(x, #[trigger] r[i].0) by {
            if i > 0 {
                assert(r[i] == rt[i - 1]);
            }
        }
    }
}

/// Inserting into a property list with ascending keys keeps them ascending.
pub proof fn lemma_props_insert_ascending(p: PropsView, k: Seq<char>, v: Seq<char>)
    requires
        keys_ascending(p),
    ensures
        keys_ascending(props_insert(p, k, v)),
    decreases p.len(),
{
    let r = props_insert(p, k, v);
    if p.len() == 0 {
    } else if p[0].0 == k {
        assert forall|i: int| 0 <= i < r.len() implies #[trigger] r[i].0 == p[i].0 by {
            if i > 0 {
                assert(r[i] == p[i]);
            }
        }
        assert forall|i: int, j: int| 0 <= i < j < r.len() implies seq_lt(
            #[trigger] r[i].0,
            #[trigger] r[j].0,
        ) by {
            assert(r[i].0 == p[i].0 && r[j].0 == p[j].0);
        }
    } else if seq_lt(k, p[0].0) {
        assert forall|i: int, j: int| 0 <= i < j < r.len() implies seq_lt(
            #[trigger] r[i].0,
            #[trigger] r[j].0,
        ) by {
            assert(r[j] == p[j - 1]);
            if i == 0 {
                if j > 1 {
                    assert(seq_lt(p[0].0, p[j - 1].0));
                    lemma_seq_lt_trans(k, p[0].0, p[j - 1].0);
                }
            } else {
                assert(r[i] == p[i - 1]);
                assert(seq_lt(p[i - 1].0, p[j - 1].0));
            }
        }
    } else {
        lemma_seq_lt_total(k, p[0].0);
        let t = p.drop_first();
        assert forall|i: int, j: int| 0 <= i < j < t.len() implies seq_lt(
            #[trigger] t[i].0,
            #[trigger] t[j].0,
        ) by {
            assert(t[i] == p[i + 1] && t[j] == p[j + 1]);
            assert(seq_lt(p[i + 1].0, p[j + 1].0));
        }
        assert forall|i: int| 0 <= i < t.len() implies seq_lt(p[0].0, #[trigger] t[i].0) by {
            assert(t[i] == p[i + 1]);
            assert(seq_lt(p[0].0, p[i + 1].0));
        }
        lemma_props_insert_ascending(t, k, v);
        lemma_props_insert_above(t, k, v, p[0].0);
        let rt = props_insert(t, k, v);
        assert forall|i: int, j: int| 0 <= i < j < r.len() implies seq_lt(
            #[trigger] r[i].0,
            #[trigger] r[j].0,
        ) by {
            assert(r[j] == rt[j - 1]);
            if i == 0 {
                assert(r[0] == p[0]);
                assert(seq_lt(p[0].0, rt[j - 1].0));
            } else {
                assert(r[i] == rt[i - 1]);
                assert(seq_lt(rt[i - 1].0, rt[j - 1].0));
            }
        }
    }
}

/// Looking a key up in a property list.
pub open spec fn props_get(p: PropsView, k: Seq<char>) -> Option<Seq<char>>
    decreases p.len(),
{
    if p.len() == 0 {
        None
    } else if p[0].0 == k {
        Some(p[0].1)
    } else {
        props_get(p.drop_first(), k)
    }
}

/// Properties read from the `key=value` parts between the brackets, left to
/// right; the first part without `=` is the error.
pub open spec fn parse_props(parts: Seq<Seq<char>>) -> Result<PropsView, Seq<char>>
    decreases parts.len(),
{
    if parts.len() == 0 {
        Ok(seq![])
    } else {
        match parse_props(parts.drop_last()) {
            Err(e) => Err(e),
            Ok(acc) => match split_once(parts.last(), '=') {
                None => Err(parts.last()),
                Some((k, v)) => Ok(props_insert(acc, trim(k), trim(v))),
            },
        }
    }
}

pub open spec fn lit_empty_state() -> Seq<char> {
    "empty block state"@
}

/// What `BlockState::parse` gives for `input`: the state, or the error text.
pub open spec fn parse_state(input: Seq<char>) -> Result<BlockStateView, Seq<char>> {
    let t = trim(input);
    if t.len() == 0 {
        Err("empty block state"@)
    } else {
        match split_once(t, '[') {
            None => Ok(BlockStateView { name: t, props: seq![] }),
            Some((name, rest)) => match strip_suffix(rest, "]"@) {
                None => Err("missing ']' in `"@ + t + "`"@),
                Some(inner) => if inner.len() == 0 {
                    Ok(BlockStateView { name: trim(name), props: seq![] })
                } else {
                    match parse_props(split(inner, ',')) {
                        Err(part) => Err("bad property `"@ + part + "` in `"@ + t + "`"@),
                        Ok(props) => Ok(BlockStateView { name: trim(name), props }),
                    }
                },
            },
        }
    }
}

/// `k=v` text of one property.
pub open spec fn prop_text(e: (Seq<char>, Seq<char>)) -> Seq<char> {
    e.0 + seq!['='] + e.1
}

/// The `k=v` texts of a property list.
pub open spec fn props_texts(p: PropsView) -> Seq<Seq<char>> {
    p.map_values(|e: (Seq<char>, Seq<char>)| prop_text(e))
}

/// Compact text of a state: `name` or `name[k=v,...]`.
pub open spec fn compact(b: BlockStateView) -> Seq<char> {
    if b.props.len() == 0 {
        b.name
    } else {
        b.name + seq!['['] + join(props_texts(b.props), ',') + seq![']']
    }
}

/// The path part of a namespaced id (after the last `:`).
pub open spec fn strip_ns(name: Seq<char>) -> Seq<char> {
    match rsplit_once(name, ':') {
        Some((_, n)) => n,
        None => name,
    }
}

/// Short label: the path part, with `*` when the state has properties.
pub open spec fn short_label(b: BlockStateView) -> Seq<char> {
    if b.props.len() == 0 {
        strip_ns(b.name)
    } else {
        strip_ns(b.name).push('*')
    }
}

pub open spec fn is_air_like_view(b: BlockStateView) -> bool {
    (b.name == "minecraft:air"@ || b.name == "minecraft:cave_air"@ || b.name
        == "minecraft:void_air"@) && b.props.len() == 0
}

pub open spec fn is_empty_sentinel_view(b: BlockStateView) -> bool {
    b.name == "minecraft:void_air"@ && b.props.len() == 0
}

/// Three-way comparison of character sequences in `seq_lt` order:
/// -1, 0 or 1.
pub fn compare_chars(a: &[char], b: &[char]) -> (r: i8)
    ensures
        r == 0 <==> a@ == b@,
        r == -1 <==> seq_lt(a@, b@),
        r == 1 <==> seq_lt(b@, a@),
        r == -1 || r == 0 || r == 1,
{
    let mut i: usize = 0;
    while i < a.len() && i < b.len()
        invariant
            i <= a@.len(),
            i <= b@.len(),
            forall|j: int| 0 <= j < i ==> a@[j] == b@[j],
        decreases a.len() - i,
    {
        if a[i] != b[i] {
            proof {
                lemma_seq_lt_at(a@, b@, i as int);
                lemma_seq_lt_at(b@, a@, i as int);
            }
            if a[i] < b[i] {
                return -1;
            } else {
                return 1;
            }
        }
        i += 1;
    }
    proof {
        lemma_seq_lt_at(a@, b@, i as int);
        lemma_seq_lt_at(b@, a@, i as int);
    }
    if a.len() == b.len() {
        assert(a@ =~= b@);
        0
    } else if a.len() < b.len() {
        assert(a@.len() != b@.len());
        -1
    } else {
        assert(a@.len() != b@.len());
        1
    }
}

/// Order of two sequences that agree on their first `i` elements is decided
/// at position `i`.
pub proof fn lemma_seq_lt_at(a: Seq<char>, b: Seq<char>, i: int)
    requires
        0 <= i <= a.len(),
        i <= b.len(),
        forall|j: int| 0 <= j < i ==> a[j] == b[j],
    ensures
        seq_lt(a, b) == (if i < a.len() && i < b.len() && a[i] != b[i] {
            a[i] < b[i]
        } else if i == a.len() {
            b.len() > a.len()
        } else if i == b.len() {
            false
        } else {
            seq_lt(a.skip(i), b.skip(i))
        }),
    decreases i,
{
    if i > 0 {
        assert(a[0] == b[0]);
        assert forall|j: int| 0 <= j < i - 1 implies a.drop_first()[j] == b.drop_first()[j] by {
            assert(a.drop_first()[j] == a[j + 1]);
            assert(b.drop_first()[j] == b[j + 1]);
        }
        lemma_seq_lt_at(a.drop_first(), b.drop_first(), i - 1);
        if i < a.len() && i < b.len() {
            assert(a.drop_first()[i - 1] == a[i]);
            assert(b.drop_first()[i - 1] == b[i]);
            assert(a.drop_first().skip(i - 1) == a.skip(i));
            assert(b.drop_first().skip(i - 1) == b.skip(i));
        }
    } else {
        assert(a.skip(0) == a);
        assert(b.skip(0) == b);
    }
}

/// Appends a copy of `p[from..to]` to `out`.
pub fn append_props(out: &mut Vec<(String, String)>, p: &Vec<(String, String)>, from: usize, to: usize)
    requires
        from <= to <= p@.len(),
    ensures
        props_view(final(out)@) == props_view(old(out)@) + props_view(p@).subrange(from as int, to as int),
{
    let mut i: usize = from;
    while i < to
        invariant
            from <= i <= to <= p@.len(),
            props_view(out@) == props_view(old(out)@) + props_view(p@).subrange(from as int, i as int),
        decreases to - i,
    {
        let k = p[i].0.clone();
        let v = p[i].1.clone();
        let ghost old_out = out@;
        out.push((k, v));
        assert(out@ == old_out.push((k, v)));
        assert(k@ == p@[i as int].0@);
        assert(v@ == p@[i as int].1@);
        assert(props_view(out@) =~= props_view(old_out).push((k@, v@)));
        assert(props_view(p@).subrange(from as int, i + 1) =~= props_view(p@).subrange(from as int, i as int).push((k@, v@)));
        i += 1;
    }
}

/// Copies a property list, keeping its text.
pub fn copy_props(p: &Vec<(String, String)>) -> (out: Vec<(String, String)>)
    ensures
        props_view(out@) == props_view(p@),
{
    let mut out: Vec<(String, String)> = Vec::new();
    append_props(&mut out, p, 0, p.len());
    assert(props_view(out@) =~= props_view(p@));
    out
}

/// Inserts or replaces property `k` in a key-ordered list.
pub fn insert_prop(p: &Vec<(String, String)>, k: String, v: String) -> (out: Vec<
    (String, String),
>)
    ensures
        props_view(out@) == props_insert(props_view(p@), k@, v@),
{
    let kc = chars_of(k.as_str());
    let mut out: Vec<(String, String)> = Vec::new();
    let mut i: usize = 0;
    assert(props_view(p@).skip(0) =~= props_view(p@));
    assert(props_view(out@) =~= Seq::<(Seq<char>, Seq<char>)>::empty());
    while i < p.len()
        invariant
            i <= p@.len(),
            kc@ == k@,
            props_view(out@) + props_insert(props_view(p@).skip(i as int), k@, v@)
                == props_insert(props_view(p@), k@, v@),
        decreases p.len() - i,
    {
        let ghost rest = props_view(p@).skip(i as int);
        assert(rest[0] == (p@[i as int].0@, p@[i as int].1@));
        assert(rest.drop_first() == props_view(p@).skip(i + 1));
        let pk = chars_of(p[i].0.as_str());
        let c = compare_chars(&pk, &kc);
        if c == 0 {
            let ghost before = props_view(out@);
            let ghost opush = out@;
            out.push((k, v));
            assert(props_view(out@) =~= before.push((k@, v@)));
            append_props(&mut out, p, i + 1, p.len());
            assert(props_view(p@).subrange(i + 1, p@.len() as int) =~= rest.drop_first());
            assert(props_view(out@) =~= before + props_insert(rest, k@, v@));
            return out;
        } else if c == 1 {
            let ghost before = props_view(out@);
            out.push((k, v));
            assert(props_view(out@) =~= before.push((k@, v@)));
            append_props(&mut out, p, i, p.len());
            assert(props_view(p@).subrange(i as int, p@.len() as int) =~= rest);
            assert(props_view(out@) =~= before + props_insert(rest, k@, v@));
            return out;
        } else {
            let ghost before = props_view(out@);
            append_props(&mut out, p, i, i + 1);
            assert(props_view(p@).subrange(i as int, i + 1) =~= seq![rest[0]]);
            i += 1;
            assert(props_view(out@) + props_insert(props_view(p@).skip(i as int), k@, v@) =~= before
                + props_insert(rest, k@, v@));
        }
    }
    let ghost before = props_view(out@);
    assert(props_view(p@).skip(i as int) =~= Seq::<(Seq<char>, Seq<char>)>::empty());
    out.push((k, v));
    assert(props_view(out@) =~= before.push((k@, v@)));
    assert(props_view(out@) =~= before + props_insert(props_view(p@).skip(i as int), k@, v@));
    out
}

/// Looks a property up.
pub fn get_prop<'a>(p: &'a Vec<(String, String)>, key: &str) -> (r: Option<&'a String>)
    ensures
        match r {
            Some(v) => props_get(props_view(p@), key@) == Some(v@),
            None => props_get(props_view(p@), key@) is None,
        },
{
    let kc = chars_of(key);
    let mut i: usize = 0;
    assert(props_view(p@).skip(0) =~= props_view(p@));
    while i < p.len()
        invariant
            i <= p@.len(),
            kc@ == key@,
            props_get(props_view(p@), key@) == props_get(props_view(p@).skip(i as int), key@),
        decreases p.len() - i,
    {
        let ghost rest = props_view(p@).skip(i as int);
        assert(rest[0] == (p@[i as int].0@, p@[i as int].1@));
        assert(rest.drop_first() == props_view(p@).skip(i + 1));
        let pk = chars_of(p[i].0.as_str());
        if eq_chars(&pk, &kc) {
            return Some(&p[i].1);
        }
        i += 1;
    }
    None
}

impl BlockState {
    pub const AIR: &'static str = "minecraft:air";

    /// Skip-cell sentinel for sparse section diffs (leave existing block).
    pub const VOID_AIR: &'static str = "minecraft:void_air";

    /// A state with this name and no properties.
    pub fn new(name: &str) -> (r: Self)
        ensures
            r@.name == name@,
            r@.props.len() == 0,
    {
        BlockState { name: string_from(name), properties: Vec::new() }
    }

    pub fn air() -> (r: Self)
        ensures
            r@.name == "minecraft:air"@,
            r@.props.len() == 0,
    {
        Self::new("minecraft:air")
    }

    pub fn void_air() -> (r: Self)
        ensures
            r@.name == "minecraft:void_air"@,
            r@.props.len() == 0,
    {
        Self::new("minecraft:void_air")
    }

    /// A copy with the same name and properties.
    pub fn duplicate(&self) -> (r: Self)
        ensures
            r@ == self@,
    {
        proof {
            use_type_invariant(self);
        }
        BlockState { name: self.name.clone(), properties: copy_props(&self.properties) }
    }

    /// A state from a name and a property list whose keys ascend.
    pub(crate) fn from_parts(name: String, properties: Vec<(String, String)>) -> (r: Self)
        requires
            keys_ascending(props_view(properties@)),
        ensures
            r@ == (BlockStateView { name: name@, props: props_view(properties@) }),
    {
        BlockState { name, properties }
    }

    /// The block name.
    pub fn name(&self) -> (r: &String)
        ensures
            r@ == self@.name,
    {
        &self.name
    }

    /// The properties, in increasing key order with each key once.
    pub fn properties(&self) -> (r: &Vec<(String, String)>)
        ensures
            props_view(r@) == self@.props,
            keys_ascending(self@.props),
    {
        proof {
            use_type_invariant(self);
        }
        &self.properties
    }

    /// The same state with property `k` set to `v` (added in key order, or
    /// replacing the value it had).
    pub fn with_prop(&self, k: String, v: String) -> (r: Self)
        ensures
            r@ == (BlockStateView { name: self@.name, props: props_insert(self@.props, k@, v@) }),
            keys_ascending(r@.props),
    {
        proof {
            use_type_invariant(self);
        }
        let props = insert_prop(&self.properties, k, v);
        proof {
            lemma_props_insert_ascending(props_view(self.properties@), k@, v@);
        }
        BlockState { name: self.name.clone(), properties: props }
    }

    /// Same name and same properties.
    pub fn same(&self, other: &Self) -> (r: bool)
        ensures
            r == (self@ == other@),
    {
        let a = chars_of(self.name.as_str());
        let b = chars_of(other.name.as_str());
        if !eq_chars(&a, &b) {
            return false;
        }
        if self.properties.len() != other.properties.len() {
            assert(self@.props.len() != other@.props.len());
            return false;
        }
        let mut i: usize = 0;
        while i < self.properties.len()
            invariant
                i <= self.properties@.len(),
                self.properties@.len() == other.properties@.len(),
                forall|j: int| 0 <= j < i ==> self@.props[j] == other@.props[j],
            decreases self.properties.len() - i,
        {
            let k1 = chars_of(self.properties[i].0.as_str());
            let k2 = chars_of(other.properties[i].0.as_str());
            let v1 = chars_of(self.properties[i].1.as_str());
            let v2 = chars_of(other.properties[i].1.as_str());
            if !eq_chars(&k1, &k2) || !eq_chars(&v1, &v2) {
                assert(self@.props[i as int] != other@.props[i as int]);
                return false;
            }
            i += 1;
        }
        assert(self@.props =~= other@.props);
        true
    }

    pub fn is_empty_sentinel(&self) -> (r: bool)
        ensures
            r == is_empty_sentinel_view(self@),
    {
        let n = chars_of(self.name.as_str());
        eq_str(&n, "minecraft:void_air") && self.properties.len() == 0
    }

    pub fn is_air_like(&self) -> (r: bool)
        ensures
            r == is_air_like_view(self@),
    {
        let n = chars_of(self.name.as_str());
        (eq_str(&n, "minecraft:air") || eq_str(&n, "minecraft:cave_air") || eq_str(
            &n,
            "minecraft:void_air",
        )) && self.properties.len() == 0
    }

    /// Parse `namespace:path[key=value,...]`; surrounding white space is
    /// ignored, and so is white space around each key and value.
    #[verifier::loop_isolation(false)]
    pub fn parse(input: &str) -> (r: Result<Self, String>)
        ensures
            match r {
                Ok(b) => parse_state(input@) == Ok::<BlockStateView, Seq<char>>(b@),
                Err(e) => parse_state(input@) == Err::<BlockStateView, Seq<char>>(e@),
            },
    {
        let t = trimmed(input);
        if t.len() == 0 {
            return Err(string_from("empty block state"));
        }
        match split_once_chars(&t, '[') {
            None => {
                let r = BlockState { name: string_of(&t), properties: Vec::new() };
                assert(r@.props =~= Seq::<(Seq<char>, Seq<char>)>::empty());
                Ok(r)
            },
            Some((name, rest)) => {
                if !ends_with_str(&rest, "]") {
                    let mut msg: Vec<char> = chars_of("missing ']' in `");
                    append(&mut msg, &t);
                    append_str(&mut msg, "`");
                    return Err(string_of(&msg));
                }
                proof {
                    reveal_strlit("]");
                }
                let inner = slice_vec(&rest, 0, rest.len() - 1);
                assert(strip_suffix(rest@, "]"@) == Some(inner@));
                let name_t = trim_chars(&name);
                if inner.len() == 0 {
                    let r = BlockState { name: string_of(&name_t), properties: Vec::new() };
                    assert(r@.props =~= Seq::<(Seq<char>, Seq<char>)>::empty());
                    return Ok(r);
                }
                let parts = split_chars(&inner, ',');
                let mut props: Vec<(String, String)> = Vec::new();
                let mut i: usize = 0;
                assert(views(parts@).take(0) =~= Seq::<Seq<char>>::empty());
                assert(props_view(props@) =~= Seq::<(Seq<char>, Seq<char>)>::empty());
                while i < parts.len()
                    invariant
                        i <= parts@.len(),
                        parse_props(views(parts@).take(i as int)) == Ok::<
                            PropsView,
                            Seq<char>,
                        >(props_view(props@)),
                        keys_ascending(props_view(props@)),
                    decreases parts.len() - i,
                {
                    let ghost pv = views(parts@);
                    assert(pv.take(i + 1).drop_last() == pv.take(i as int));
                    assert(pv.take(i + 1).last() == parts@[i as int]@);
                    match split_once_chars(&parts[i], '=') {
                        None => {
                            assert(parse_props(views(parts@)) == Err::<PropsView, Seq<char>>(
                                parts@[i as int]@,
                            )) by {
                                lemma_parse_props_err_prefix(pv, i as int);
                            }
                            let mut msg: Vec<char> = chars_of("bad property `");
                            append(&mut msg, &parts[i]);
                            append_str(&mut msg, "` in `");
                            append(&mut msg, &t);
                            append_str(&mut msg, "`");
                            assert(views(parts@) == split(inner@, ','));
                            assert(msg@ == "bad property `"@ + parts@[i as int]@ + "` in `"@ + t@ + "`"@);
                            return Err(string_of(&msg));
                        },
                        Some((k, v)) => {
                            let kt = trim_chars(&k);
                            let vt = trim_chars(&v);
                            let ks = string_of(&kt);
                            let vs = string_of(&vt);
                            proof {
                                lemma_props_insert_ascending(props_view(props@), ks@, vs@);
                            }
                            props = insert_prop(&props, ks, vs);
                        },
                    }
                    i += 1;
                }
                assert(views(parts@).take(parts@.len() as int) == views(parts@));
                assert(parse_props(split(inner@, ',')) == Ok::<PropsView, Seq<char>>(props_view(props@)));
                let r = BlockState { name: string_of(&name_t), properties: props };
                assert(r@ == BlockStateView { name: trim(name@), props: props_view(props@) });
                Ok(r)
            },
        }
    }

    /// `name` or `name[k=v,...]`, the properties in increasing key order.
    pub fn to_compact(&self) -> (r: String)
        ensures
            r@ == compact(self@),
            keys_ascending(self@.props),
    {
        proof {
            use_type_invariant(self);
        }
        let v = self.compact_chars();
        string_of(&v)
    }

    /// The compact text as characters.
    pub fn compact_chars(&self) -> (r: Vec<char>)
        ensures
            r@ == compact(self@),
    {
        let mut out = chars_of(self.name.as_str());
        if self.properties.len() == 0 {
            return out;
        }
        let mut texts: Vec<Vec<char>> = Vec::new();
        let mut i: usize = 0;
        while i < self.properties.len()
            invariant
                i <= self.properties@.len(),
                views(texts@) == props_texts(self@.props).take(i as int),
            decreases self.properties.len() - i,
        {
            let mut t = chars_of(self.properties[i].0.as_str());
            t.push('=');
            let v = chars_of(self.properties[i].1.as_str());
            append(&mut t, &v);
            let ghost old_texts = texts@;
            texts.push(t);
            assert(views(texts@) =~= views(old_texts).push(t@));
            assert(t@ == prop_text(self@.props[i as int]));
            i += 1;
            assert(views(texts@) =~= props_texts(self@.props).take(i as int));
        }
        assert(props_texts(self@.props).take(self@.props.len() as int) == props_texts(
            self@.props,
        ));
        out.push('[');
        let j = join_chars(&texts, ',');
        append(&mut out, &j);
        out.push(']');
        assert(out@ =~= compact(self@));
        out
    }

    /// Short label for slice views: the name after its namespace, with `*`
    /// when the state has properties.
    pub fn short_label(&self) -> (r: String)
        ensures
            r@ == short_label(self@),
    {
        let n = chars_of(self.name.as_str());
        let mut base = match rsplit_once_chars(&n, ':') {
            Some((_, b)) => b,
            None => n,
        };
        if self.properties.len() != 0 {
            base.push('*');
        }
        string_of(&base)
    }
}

/// Once a part fails, the whole list fails with that part.
pub proof fn lemma_parse_props_err_prefix(parts: Seq<Seq<char>>, i: int)
    requires
        0 <= i < parts.len(),
        parse_props(parts.take(i)) is Ok,
        split_once(parts[i], '=') is None,
    ensures
        parse_props(parts) == Err::<PropsView, Seq<char>>(parts[i]),
    decreases parts.len(),
{
    if parts.len() == i + 1 {
        assert(parts.drop_last() == parts.take(i));
    } else {
        assert(parts.drop_last().take(i) == parts.take(i));
        lemma_parse_props_err_prefix(parts.drop_last(), i);
    }
}

impl PartialEq for BlockState {
    fn eq(&self, other: &Self) -> (r: bool) {
        self.same(other)
    }
}

impl vstd::std_specs::cmp::PartialEqSpecImpl for BlockState {
    open spec fn obeys_eq_spec() -> bool {
        true
    }

    open spec fn eq_spec(&self, other: &Self) -> bool {
        self@ == other@
    }
}

impl Clone for BlockState {
    fn clone(&self) -> (r: Self)
        ensures
            r@ == self@,
    {
        self.duplicate()
    }
}

impl Eq for BlockState {

}

/// Text that is non-empty, has no white space at either end, and holds
/// none of the characters in `bad`.
pub open spec fn clean_text(t: Seq<char>, bad: Seq<char>) -> bool {
    &&& t.len() > 0
    &&& !crate::text::is_ws(t[0])
    &&& !crate::text::is_ws(t.last())
    &&& forall|i: int| 0 <= i < t.len() ==> !bad.contains(#[trigger] t[i])
}

/// A state whose compact text reads back as itself: a clean name, and clean
/// keys and values with the keys in strictly increasing order.
pub open spec fn canonical_state(b: BlockStateView) -> bool {
    &&& clean_text(b.name, seq!['[', ']'])
    &&& forall|i: int|
        0 <= i < b.props.len() ==> clean_text(#[trigger] b.props[i].0, seq![',', '=', '[', ']'])
            && clean_text(b.props[i].1, seq![',', '=', '[', ']'])
    &&& forall|i: int, j: int|
        0 <= i < j < b.props.len() ==> seq_lt(#[trigger] b.props[i].0, #[trigger] b.props[j].0)
}

proof fn lemma_seq_lt_asym(a: Seq<char>, b: Seq<char>)
    requires
        seq_lt(a, b),
    ensures
        !seq_lt(b, a),
        a != b,
    decreases a.len(),
{
    if a.len() > 0 && b.len() > 0 && a[0] == b[0] {
        lemma_seq_lt_asym(a.drop_first(), b.drop_first());
    }
}

pub proof fn lemma_props_insert_last(p: PropsView, k: Seq<char>, v: Seq<char>)
    requires
        forall|i: int| 0 <= i < p.len() ==> seq_lt(#[trigger] p[i].0, k),
    ensures
        props_insert(p, k, v) == p.push((k, v)),
    decreases p.len(),
{
    if p.len() > 0 {
        lemma_seq_lt_asym(p[0].0, k);
        let t = p.drop_first();
        assert forall|i: int| 0 <= i < t.len() implies seq_lt(#[trigger] t[i].0, k) by {
            assert(t[i] == p[i + 1]);
        }
        lemma_props_insert_last(t, k, v);
        assert(seq![p[0]] + t.push((k, v)) =~= p.push((k, v)));
    }
}

proof fn lemma_parse_props_canonical(b: BlockStateView, n: nat)
    requires
        canonical_state(b),
        n <= b.props.len(),
    ensures
        parse_props(props_texts(b.props).take(n as int)) == Ok::<PropsView, Seq<char>>(
            b.props.take(n as int),
        ),
    decreases n,
{
    let texts = props_texts(b.props);
    if n == 0 {
        assert(texts.take(0) =~= Seq::<Seq<char>>::empty());
        assert(b.props.take(0) =~= Seq::<(Seq<char>, Seq<char>)>::empty());
    } else {
        lemma_parse_props_canonical(b, (n - 1) as nat);
        assert(texts.take(n as int).drop_last() =~= texts.take(n - 1));
        let (k, v) = b.props[n - 1];
        assert(texts.take(n as int).last() == k + seq!['='] + v);
        assert(clean_text(k, seq![',', '=', '[', ']']));
        assert(clean_text(v, seq![',', '=', '[', ']']));
        assert forall|i: int| 0 <= i < k.len() implies k[i] != '=' by {
            assert(!seq![',', '=', '[', ']'].contains(k[i]));
            assert(seq![',', '=', '[', ']'][1] == '=');
        }
        crate::text::lemma_split_once_first(k, v, '=');
        crate::text::lemma_trim_unchanged(k);
        crate::text::lemma_trim_unchanged(v);
        let acc = b.props.take(n - 1);
        assert forall|i: int| 0 <= i < acc.len() implies seq_lt(#[trigger] acc[i].0, k) by {
            assert(acc[i] == b.props[i]);
        }
        lemma_props_insert_last(acc, k, v);
        assert(acc.push((k, v)) =~= b.props.take(n as int));
    }
}

/// The compact text of a canonical state reads back as the state.
pub proof fn law_compact_round_trip(b: BlockStateView)
    requires
        canonical_state(b),
    ensures
        parse_state(compact(b)) == Ok::<BlockStateView, Seq<char>>(b),
{
    reveal_strlit("]");
    let name = b.name;
    let lb = seq!['[', ']'];
    assert forall|i: int| 0 <= i < name.len() implies name[i] != '[' && name[i] != ']' by {
        assert(!lb.contains(name[i]));
        assert(lb[0] == '[' && lb[1] == ']');
    }
    if b.props.len() == 0 {
        crate::text::lemma_trim_unchanged(name);
        crate::text::lemma_index_of_is(name, '[', name.len() as int);
        assert(compact(b) == name);
        assert(split_once(name, '[') is None);
        assert(b.props =~= Seq::<(Seq<char>, Seq<char>)>::empty());
    } else {
        let texts = props_texts(b.props);
        let inner = join(texts, ',');
        let t = compact(b);
        assert(t == name + seq!['['] + (inner + seq![']']));
        assert(t[0] == name[0]);
        assert(t.last() == ']');
        assert(!crate::text::is_ws(']'));
        crate::text::lemma_trim_unchanged(t);
        crate::text::lemma_split_once_first(name, inner + seq![']'], '[');
        let rest = inner + seq![']'];
        assert(rest.skip(rest.len() - 1) =~= "]"@);
        assert(rest.take(rest.len() - 1) =~= inner);
        crate::text::lemma_trim_unchanged(name);
        // the property texts hold no comma
        let cb = seq![',', '=', '[', ']'];
        assert(cb[0] == ',' && cb[1] == '=');
        assert forall|k: int, i: int| 0 <= k < texts.len() && 0 <= i < texts[k].len() implies #[trigger] texts[k][i]
            != ',' by {
            let (kk, vv) = b.props[k];
            assert(texts[k] == kk + seq!['='] + vv);
            assert(clean_text(kk, cb) && clean_text(vv, cb));
            if i < kk.len() {
                assert(texts[k][i] == kk[i]);
                assert(!cb.contains(kk[i]));
            } else if i > kk.len() {
                assert(texts[k][i] == vv[i - kk.len() - 1]);
                assert(!cb.contains(vv[i - kk.len() - 1]));
            }
        }
        crate::text::lemma_split_join(texts, ',');
        assert(inner.len() > 0) by {
            if texts.len() >= 2 {
                crate::text::lemma_join_front(texts, ',');
            } else {
                assert(inner == texts[0]);
            }
        }
        lemma_parse_props_canonical(b, b.props.len());
        assert(texts.take(texts.len() as int) =~= texts);
        assert(b.props.take(b.props.len() as int) =~= b.props);
        assert(trim(t) == t);
        assert(split_once(t, '[') == Some((name, rest)));
        assert(ends_with(rest, "]"@));
        assert(strip_suffix(rest, "]"@) == Some(inner));
        assert(split(inner, ',') == texts);
        assert(parse_props(texts) == Ok::<PropsView, Seq<char>>(b.props));
        assert(trim(name) == name);
    }
}

} // verus!
