//! A chunk's tag tree with its blocks read and written section by section,
//! and block states as palette tags.

use vstd::prelude::*;
use crate::blockstate::{
    insert_prop, keys_ascending, lemma_props_insert_ascending, lemma_props_insert_last,
    parse_state, props_insert, props_view, BlockState, BlockStateView, PropsView,
};
use crate::bitstorage::{decode, longs_needed};
use crate::chunk::{biome_bits, biome_index_spec, normalize_biome, normalize_biome_text, SectionBiomes};
use crate::palette::{
    block_bits, index_spec, key_index, lemma_key_index_of_distinct, lemma_used_keys_contains,
    lemma_used_keys_distinct, lemma_used_keys_len, used_keys, SectionBlocks,
};
use crate::blockstate::{canonical_state, compact, law_compact_round_trip};
use crate::nbt::{
    child, child_of, compound_get, compound_set, entries_view, entry_index, lemma_entries_view, nbt_view, Nbt, NbtView,
};
use crate::text::{copy_string, int_text, push_int, string_from, string_of};

verus! {

/// A property value as text: a string tag's text, an integer tag's
/// decimal digits; `None` for any other tag.
pub open spec fn prop_value_text(v: NbtView) -> Option<Seq<char>> {
    match v {
        NbtView::Text(s) => Some(s),
        NbtView::Byte(n) => Some(int_text(n as int)),
        NbtView::Short(n) => Some(int_text(n as int)),
        NbtView::Int(n) => Some(int_text(n as int)),
        NbtView::Long(n) => Some(int_text(n as int)),
        _ => None,
    }
}

/// The properties of a `Properties` compound, each key once in key order
/// (a later entry with the same key wins); `None` when a value is not text
/// or an integer.
pub open spec fn props_of(es: Seq<(Seq<char>, NbtView)>) -> Option<PropsView>
    decreases es.len(),
{
    if es.len() == 0 {
        Some(seq![])
    } else {
        match props_of(es.drop_last()) {
            None => None,
            Some(p) => match prop_value_text(es.last().1) {
                None => None,
                Some(t) => Some(props_insert(p, es.last().0, t)),
            },
        }
    }
}

/// The first of two entries that exists.
pub open spec fn either(es: Seq<(Seq<char>, NbtView)>, a: Seq<char>, b: Seq<char>) -> Option<NbtView> {
    match compound_get(es, a) {
        Some(v) => Some(v),
        None => compound_get(es, b),
    }
}

/// A palette tag as a block state: a string is parsed as compact text; a
/// compound gives `Name` (or `name`) and the optional `Properties` (or
/// `properties`) compound.
pub open spec fn state_of_tag(v: NbtView) -> Result<BlockStateView, Seq<char>> {
    match v {
        NbtView::Text(s) => parse_state(s),
        NbtView::Compound(es) => match either(es, "Name"@, "name"@) {
            Some(NbtView::Text(n)) => match either(es, "Properties"@, "properties"@) {
                Some(NbtView::Compound(pe)) => match props_of(pe) {
                    Some(p) => Ok(BlockStateView { name: n, props: p }),
                    None => Err("bad property value"@),
                },
                _ => Ok(BlockStateView { name: n, props: seq![] }),
            },
            _ => Err("palette entry missing Name"@),
        },
        _ => Err("bad palette entry"@),
    }
}

/// The palette tag written for a state: `Name`, and `Properties` when it
/// has any.
pub open spec fn state_tag(b: BlockStateView) -> NbtView {
    if b.props.len() == 0 {
        NbtView::Compound(seq![("Name"@, NbtView::Text(b.name))])
    } else {
        NbtView::Compound(
            seq![
                ("Name"@, NbtView::Text(b.name)),
                ("Properties"@, NbtView::Compound(b.props.map_values(|e: (Seq<char>, Seq<char>)| (e.0, NbtView::Text(e.1))))),
            ],
        )
    }
}

fn either_of<'a>(es: &'a Vec<(String, Nbt)>, a: &str, b: &str) -> (r: Option<&'a Nbt>)
    ensures
        match r {
            Some(v) => either(entries_view(es@), a@, b@) == Some(v@),
            None => either(entries_view(es@), a@, b@) is None,
        },
{
    proof {
        lemma_entries_view(es@);
    }
    match entry_index(es, a) {
        Some(j) => Some(&es[j].1),
        None => match entry_index(es, b) {
            Some(j) => Some(&es[j].1),
            None => None,
        },
    }
}

fn prop_value(v: &Nbt) -> (r: Option<String>)
    ensures
        match r {
            Some(s) => prop_value_text(v@) == Some(s@),
            None => prop_value_text(v@) is None,
        },
{
    let mut digits: Vec<char> = Vec::new();
    match v {
        Nbt::Text(s) => return Some(s.clone()),
        Nbt::Byte(n) => push_int(&mut digits, *n as i64),
        Nbt::Short(n) => push_int(&mut digits, *n as i64),
        Nbt::Int(n) => push_int(&mut digits, *n as i64),
        Nbt::Long(n) => push_int(&mut digits, *n),
        _ => return None,
    }
    Some(string_of(&digits))
}

/// Reads a palette tag as a block state.
#[verifier::loop_isolation(false)]
pub fn state_from_tag(v: &Nbt) -> (r: Result<BlockState, String>)
    ensures
        match state_of_tag(v@) {
            Ok(b) => r is Ok && r->Ok_0@ == b,
            Err(e) => r is Err && r->Err_0@ == e,
        },
{
    match v {
        Nbt::Text(s) => BlockState::parse(s.as_str()),
        Nbt::Compound(es) => {
            proof {
                lemma_entries_view(es@);
            }
            let name = match either_of(es, "Name", "name") {
                Some(Nbt::Text(n)) => copy_string(n),
                _ => return Err(string_from("palette entry missing Name")),
            };
            let mut props: Vec<(String, String)> = Vec::new();
            match either_of(es, "Properties", "properties") {
                Some(Nbt::Compound(pe)) => {
                    proof {
                        lemma_entries_view(pe@);
                    }
                    let ghost pv = entries_view(pe@);
                    let mut i: usize = 0;
                    assert(pv.take(0) =~= Seq::<(Seq<char>, NbtView)>::empty());
                    assert(props_view(props@) =~= Seq::<(Seq<char>, Seq<char>)>::empty());
                    while i < pe.len()
                        invariant
                            i <= pe@.len(),
                            pv == entries_view(pe@),
                            pv.len() == pe@.len(),
                            forall|m: int| 0 <= m < pe@.len() ==> #[trigger] pv[m] == (pe@[m].0@, pe@[m].1@),
                            props_of(pv.take(i as int)) == Some(props_view(props@)),
                            keys_ascending(props_view(props@)),
                        decreases pe.len() - i,
                    {
                        assert(pv.take(i + 1).drop_last() =~= pv.take(i as int));
                        assert(pv.take(i + 1).last() == pv[i as int]);
                        match prop_value(&pe[i].1) {
                            None => {
                                assert(props_of(pv.take(i + 1)) is None);
                                proof {
                                    lemma_props_of_none_prefix(pv, i + 1);
                                }
                                return Err(string_from("bad property value"));
                            },
                            Some(t) => {
                                let k = pe[i].0.clone();
                                proof {
                                    lemma_props_insert_ascending(props_view(props@), k@, t@);
                                }
                                props = insert_prop(&props, k, t);
                            },
                        }
                        i += 1;
                    }
                    assert(pv.take(pe@.len() as int) =~= pv);
                },
                _ => {
                    assert(props_view(props@) =~= Seq::<(Seq<char>, Seq<char>)>::empty());
                },
            }
            Ok(BlockState::from_parts(name, props))
        },
        _ => Err(string_from("bad palette entry")),
    }
}

/// Once a prefix of the entries fails, the whole list fails.
proof fn lemma_props_of_none_prefix(es: Seq<(Seq<char>, NbtView)>, n: int)
    requires
        0 <= n <= es.len(),
        props_of(es.take(n)) is None,
    ensures
        props_of(es) is None,
    decreases es.len(),
{
    if n < es.len() {
        assert(es.drop_last().take(n) =~= es.take(n));
        lemma_props_of_none_prefix(es.drop_last(), n);
    } else {
        assert(es.take(n) =~= es);
    }
}

/// Writes a block state as a palette tag.
pub fn state_to_tag(b: &BlockState) -> (r: Nbt)
    ensures
        r@ == state_tag(b@),
{
    let props = b.properties();
    let mut es: Vec<(String, Nbt)> = Vec::new();
    es.push((string_from("Name"), Nbt::Text(copy_string(b.name()))));
    if props.len() > 0 {
        let mut inner: Vec<(String, Nbt)> = Vec::new();
        let mut i: usize = 0;
        while i < props.len()
            invariant
                i <= props@.len(),
                props_view(props@) == b@.props,
                entries_view(inner@) == b@.props.take(i as int).map_values(
                    |e: (Seq<char>, Seq<char>)| (e.0, NbtView::Text(e.1)),
                ),
            decreases props.len() - i,
        {
            let ghost before = inner@;
            inner.push((copy_string(&props[i].0), Nbt::Text(copy_string(&props[i].1))));
            proof {
                lemma_entries_view(before);
                lemma_entries_view(inner@);
            }
            assert(props_view(props@)[i as int] == (props@[i as int].0@, props@[i as int].1@));
            assert(b@.props.take(i + 1) =~= b@.props.take(i as int).push(b@.props[i as int]));
            let ghost want = b@.props.take(i + 1).map_values(
                |e: (Seq<char>, Seq<char>)| (e.0, NbtView::Text(e.1)),
            );
            assert forall|m: int| 0 <= m < inner@.len() implies #[trigger] entries_view(inner@)[m] == want[m] by {
                if m < i {
                    assert(inner@[m] == before[m]);
                    assert(entries_view(before)[m] == want[m]);
                } else {
                    assert(entries_view(inner@)[m] == (inner@[m].0@, nbt_view(inner@[m].1)));
                }
            }
            i += 1;
            assert(entries_view(inner@) =~= b@.props.take(i as int).map_values(
                |e: (Seq<char>, Seq<char>)| (e.0, NbtView::Text(e.1)),
            ));
        }
        assert(b@.props.take(props@.len() as int) =~= b@.props);
        es.push((string_from("Properties"), Nbt::Compound(inner)));
    }
    proof {
        lemma_entries_view(es@);
        reveal_strlit("Name");
        reveal_strlit("Properties");
    }
    let r = Nbt::Compound(es);
    assert(entries_view(es@) =~= match state_tag(b@) {
        NbtView::Compound(e) => e,
        _ => seq![],
    });
    r
}

proof fn lemma_props_of_tags(p: PropsView, n: nat)
    requires
        keys_ascending(p),
        n <= p.len(),
    ensures
        props_of(p.map_values(|e: (Seq<char>, Seq<char>)| (e.0, NbtView::Text(e.1))).take(n as int))
            == Some(p.take(n as int)),
    decreases n,
{
    let tags = p.map_values(|e: (Seq<char>, Seq<char>)| (e.0, NbtView::Text(e.1)));
    if n == 0 {
        assert(tags.take(0) =~= Seq::<(Seq<char>, NbtView)>::empty());
        assert(p.take(0) =~= Seq::<(Seq<char>, Seq<char>)>::empty());
    } else {
        lemma_props_of_tags(p, (n - 1) as nat);
        assert(tags.take(n as int).drop_last() =~= tags.take(n - 1));
        assert(tags.take(n as int).last() == (p[n - 1].0, NbtView::Text(p[n - 1].1)));
        let acc = p.take(n - 1);
        assert forall|i: int| 0 <= i < acc.len() implies crate::blockstate::seq_lt(
            #[trigger] acc[i].0,
            p[n - 1].0,
        ) by {
            assert(acc[i] == p[i]);
        }
        lemma_props_insert_last(acc, p[n - 1].0, p[n - 1].1);
        assert(acc.push((p[n - 1].0, p[n - 1].1)) =~= p.take(n as int));
    }
}

/// A state written as a palette tag reads back as itself.
pub proof fn law_state_tag_round_trip(b: BlockStateView)
    requires
        keys_ascending(b.props),
    ensures
        state_of_tag(state_tag(b)) == Ok::<BlockStateView, Seq<char>>(b),
{
    reveal_strlit("Name");
    reveal_strlit("name");
    reveal_strlit("Properties");
    reveal_strlit("properties");
    let es = match state_tag(b) {
        NbtView::Compound(e) => e,
        _ => seq![],
    };
    assert("Name"@.len() == 4 && "Properties"@.len() == 10 && "properties"@.len() == 10);
    assert(crate::nbt::is_first_key(es, "Name"@, 0));
    crate::nbt::lemma_first_key_at(es, "Name"@, 0);
    if b.props.len() == 0 {
        assert(es.len() == 1);
        assert(es[0].0 != "Properties"@);
        assert(es[0].0 != "properties"@);
        crate::nbt::lemma_first_key_none(es, "Properties"@);
        crate::nbt::lemma_first_key_none(es, "properties"@);
        assert(b.props =~= Seq::<(Seq<char>, Seq<char>)>::empty());
    } else {
        assert(es[0].0 != "Properties"@);
        assert(crate::nbt::is_first_key(es, "Properties"@, 1));
        crate::nbt::lemma_first_key_at(es, "Properties"@, 1);
        lemma_props_of_tags(b.props, b.props.len());
        let tags = b.props.map_values(|e: (Seq<char>, Seq<char>)| (e.0, NbtView::Text(e.1)));
        assert(tags.take(b.props.len() as int) =~= tags);
        assert(b.props.take(b.props.len() as int) =~= b.props);
    }
}

/// The integer tags of a list, in order, as 64-bit words.
pub open spec fn list_ints(l: Seq<NbtView>) -> Seq<i64>
    decreases l.len(),
{
    if l.len() == 0 {
        seq![]
    } else {
        list_ints(l.drop_last()) + match crate::nbt::int_of(l.last()) {
            Some(n) => seq![n],
            None => seq![],
        }
    }
}

/// The words of a section's `data` tag: an array's elements, or a list's
/// integer tags; `None` when missing or of another kind.
pub open spec fn data_words(v: Option<NbtView>) -> Option<Seq<i64>> {
    match v {
        Some(NbtView::LongArray(d)) => Some(d),
        Some(NbtView::IntArray(d)) => Some(d.map_values(|x: i32| x as i64)),
        Some(NbtView::ByteArray(d)) => Some(d.map_values(|x: i8| x as i64)),
        Some(NbtView::List(l)) => Some(list_ints(l)),
        _ => None,
    }
}

/// The states of a palette list, or the first entry's error.
pub open spec fn palette_states(p: Seq<NbtView>) -> Result<Seq<BlockStateView>, Seq<char>>
    decreases p.len(),
{
    if p.len() == 0 {
        Ok(seq![])
    } else {
        match palette_states(p.drop_last()) {
            Err(e) => Err(e),
            Ok(v) => match state_of_tag(p.last()) {
                Err(e) => Err(e),
                Ok(b) => Ok(v.push(b)),
            },
        }
    }
}

/// The cells a palette and packed words describe: one state, or no
/// words, fills the section; otherwise each cell takes the state its packed
/// index names. `None` when the palette is empty or too large, the words
/// have the wrong length or an index is out of range.
pub open spec fn decoded_cells(states: Seq<BlockStateView>, data: Option<Seq<i64>>) -> Option<Seq<BlockStateView>> {
    if states.len() == 0 {
        None
    } else if states.len() == 1 || data is None || data.unwrap().len() == 0 {
        Some(Seq::new(4096, |i: int| states[0]))
    } else {
        let bits = block_bits(states.len() as nat);
        let d = data.unwrap();
        if d.len() != longs_needed(bits, 4096) || states.len() > 65536 || exists|i: int|
            0 <= i < 4096 && (decode(bits, 4096, d)[i] as int) >= states.len() {
            None
        } else {
            Some(Seq::new(4096, |i: int| states[decode(bits, 4096, d)[i] as int]))
        }
    }
}

pub open spec fn air_view() -> BlockStateView {
    BlockStateView { name: "minecraft:air"@, props: seq![] }
}

/// The cells of a section tag: all air without `block_states`, else its
/// palette and data decoded. `None` when the palette is missing or bad.
pub open spec fn section_cells(sec: NbtView) -> Option<Seq<BlockStateView>> {
    match child(Some(sec), "block_states"@) {
        None => Some(Seq::new(4096, |i: int| air_view())),
        Some(bs) => block_states_cells(bs),
    }
}

/// The cells a `block_states` compound describes.
pub open spec fn block_states_cells(bs: NbtView) -> Option<Seq<BlockStateView>> {
    match child(Some(bs), "palette"@) {
        Some(NbtView::List(p)) => match palette_states(p) {
            Err(_) => None,
            Ok(states) => decoded_cells(states, data_words(child(Some(bs), "data"@))),
        },
        _ => None,
    }
}

fn data_of(v: Option<&Nbt>) -> (r: Option<Vec<i64>>)
    ensures
        match r {
            Some(d) => data_words(
                match v {
                    Some(m) => Some(m@),
                    None => None,
                },
            ) == Some(d@),
            None => data_words(
                match v {
                    Some(m) => Some(m@),
                    None => None,
                },
            ) is None,
        },
{
    match v {
        Some(Nbt::LongArray(d)) => {
            let mut out: Vec<i64> = Vec::new();
            let mut i: usize = 0;
            while i < d.len()
                invariant
                    i <= d@.len(),
                    out@ == d@.take(i as int),
                decreases d.len() - i,
            {
                out.push(d[i]);
                i += 1;
                assert(out@ =~= d@.take(i as int));
            }
            assert(d@.take(d@.len() as int) =~= d@);
            Some(out)
        },
        Some(Nbt::IntArray(d)) => {
            let mut out: Vec<i64> = Vec::new();
            let mut i: usize = 0;
            while i < d.len()
                invariant
                    i <= d@.len(),
                    out@ == d@.take(i as int).map_values(|x: i32| x as i64),
                decreases d.len() - i,
            {
                out.push(d[i] as i64);
                i += 1;
                assert(out@ =~= d@.take(i as int).map_values(|x: i32| x as i64));
            }
            assert(d@.take(d@.len() as int) =~= d@);
            Some(out)
        },
        Some(Nbt::ByteArray(d)) => {
            let mut out: Vec<i64> = Vec::new();
            let mut i: usize = 0;
            while i < d.len()
                invariant
                    i <= d@.len(),
                    out@ == d@.take(i as int).map_values(|x: i8| x as i64),
                decreases d.len() - i,
            {
                out.push(d[i] as i64);
                i += 1;
                assert(out@ =~= d@.take(i as int).map_values(|x: i8| x as i64));
            }
            assert(d@.take(d@.len() as int) =~= d@);
            Some(out)
        },
        Some(Nbt::List(l)) => {
            let ghost lv = crate::nbt::list_view(l@);
            proof {
                lemma_list_view(l@);
            }
            let mut out: Vec<i64> = Vec::new();
            let mut i: usize = 0;
            assert(lv.take(0) =~= Seq::<NbtView>::empty());
            while i < l.len()
                invariant
                    i <= l@.len(),
                    lv == crate::nbt::list_view(l@),
                    lv.len() == l@.len(),
                    forall|m: int| 0 <= m < l@.len() ==> #[trigger] lv[m] == l@[m]@,
                    out@ == list_ints(lv.take(i as int)),
                decreases l.len() - i,
            {
                assert(lv.take(i + 1).drop_last() =~= lv.take(i as int));
                assert(lv.take(i + 1).last() == l@[i as int]@);
                match crate::nbt::int_value(Some(&l[i])) {
                    Some(n) => {
                        out.push(n);
                    },
                    None => {},
                }
                i += 1;
                assert(out@ =~= list_ints(lv.take(i as int)));
            }
            assert(lv.take(l@.len() as int) =~= lv);
            Some(out)
        },
        _ => None,
    }
}

/// The views of a list's tags, one by one.
pub proof fn lemma_list_view(s: Seq<Nbt>)
    ensures
        crate::nbt::list_view(s).len() == s.len(),
        forall|i: int| 0 <= i < s.len() ==> #[trigger] crate::nbt::list_view(s)[i] == s[i]@,
    decreases s.len(),
{
    if s.len() > 0 {
        let t = s.subrange(1, s.len() as int);
        lemma_list_view(t);
        assert forall|i: int| 0 <= i < s.len() implies #[trigger] crate::nbt::list_view(s)[i] == s[i]@ by {
            if i > 0 {
                assert(t[i - 1] == s[i]);
            }
        }
    }
}

/// How many palette entries a section tag lists (one, air, without
/// `block_states`).
pub open spec fn section_palette_len(sec: NbtView) -> nat {
    match child(Some(sec), "block_states"@) {
        None => 1,
        Some(bs) => match child(Some(bs), "palette"@) {
            Some(NbtView::List(p)) => p.len(),
            _ => 0,
        },
    }
}

pub open spec fn state_views(v: Seq<BlockState>) -> Seq<BlockStateView> {
    v.map_values(|b: BlockState| b@)
}

/// Reads the blocks of a section tag.
#[verifier::loop_isolation(false)]
pub fn section_from_tag(sec: &Nbt) -> (r: Result<SectionBlocks, String>)
    ensures
        match section_cells(sec@) {
            Some(c) => r is Ok && r->Ok_0.wf() && r->Ok_0.cells() == c && r->Ok_0.palette@.len()
                <= section_palette_len(sec@),
            None => r is Err,
        },
{
    let bs = child_of(Some(sec), "block_states");
    if bs.is_none() {
        let a = SectionBlocks::air();
        assert(a.cells() =~= Seq::new(4096, |i: int| air_view()));
        return Ok(a);
    }
    match child_of(bs, "palette") {
        Some(Nbt::List(p)) => {
            let ghost lv = crate::nbt::list_view(p@);
            proof {
                lemma_list_view(p@);
            }
            let mut states: Vec<BlockState> = Vec::new();
            let mut i: usize = 0;
            assert(lv.take(0) =~= Seq::<NbtView>::empty());
            assert(state_views(states@) =~= Seq::<BlockStateView>::empty());
            while i < p.len()
                invariant
                    i <= p@.len(),
                    lv == crate::nbt::list_view(p@),
                    lv.len() == p@.len(),
                    forall|m: int| 0 <= m < p@.len() ==> #[trigger] lv[m] == p@[m]@,
                    palette_states(lv.take(i as int)) == Ok::<Seq<BlockStateView>, Seq<char>>(
                        state_views(states@),
                    ),
                    states@.len() == i,
                decreases p.len() - i,
            {
                assert(lv.take(i + 1).drop_last() =~= lv.take(i as int));
                assert(lv.take(i + 1).last() == p@[i as int]@);
                match state_from_tag(&p[i]) {
                    Err(e) => {
                        proof {
                            lemma_palette_states_err_prefix(lv, i + 1);
                        }
                        return Err(e);
                    },
                    Ok(b) => {
                        let ghost before = states@;
                        states.push(b);
                        assert(state_views(states@) =~= state_views(before).push(b@));
                    },
                }
                i += 1;
            }
            assert(lv.take(p@.len() as int) =~= lv);
            let data = data_of(child_of(bs, "data"));
            let ghost sv = state_views(states@);
            let ghost dv = match &data {
                Some(d) => Some(d@),
                None => None,
            };
            let r = match &data {
                Some(d) => SectionBlocks::from_palette_states(states, Some(d.as_slice())),
                None => SectionBlocks::from_palette_states(states, None),
            };
            match r {
                Ok(s) => {
                    proof {
                        assert(sv.len() >= 1);
                        if !(sv.len() == 1 || dv is None || dv.unwrap().len() == 0) {
                            let bits = block_bits(sv.len() as nat);
                            assert(dv.unwrap().len() == longs_needed(bits, 4096));
                            assert(sv.len() <= 65536);
                            assert(forall|i: int| 0 <= i < 4096 ==> (decode(bits, 4096, dv.unwrap())[i] as int) < sv.len());
                        }
                    }
                    assert(decoded_cells(sv, dv) is Some);
                    assert(s.cells() =~= decoded_cells(sv, dv).unwrap());
                    Ok(s)
                },
                Err(e) => {
                    assert(decoded_cells(sv, dv) is None);
                    Err(e)
                },
            }
        },
        _ => Err(string_from("block_states missing palette")),
    }
}

proof fn lemma_palette_states_err_prefix(p: Seq<NbtView>, n: int)
    requires
        0 <= n <= p.len(),
        palette_states(p.take(n)) is Err,
    ensures
        palette_states(p) is Err,
    decreases p.len(),
{
    if n < p.len() {
        assert(p.drop_last().take(n) =~= p.take(n));
        lemma_palette_states_err_prefix(p.drop_last(), n);
    } else {
        assert(p.take(n) =~= p);
    }
}

/// A biome palette list as normalized ids, `None` when an entry is not
/// text.
pub open spec fn biome_palette(p: Seq<NbtView>) -> Option<Seq<Seq<char>>>
    decreases p.len(),
{
    if p.len() == 0 {
        Some(seq![])
    } else {
        match biome_palette(p.drop_last()) {
            None => None,
            Some(q) => match p.last() {
                NbtView::Text(t) => Some(q.push(normalize_biome(t))),
                _ => None,
            },
        }
    }
}

/// Plains in each of a section's 64 biome cells.
pub open spec fn plains_cells() -> Seq<Seq<char>> {
    Seq::new(64, |i: int| normalize_biome("minecraft:plains"@))
}

/// The 64 biome cells a palette and packed data describe: plains with no
/// palette; the first id (normalized) with one entry or no data; else each
/// cell's packed index into the palette, `None` when the data has the wrong
/// length or an index is past the palette.
pub open spec fn biome_cells_of(pal: Seq<Seq<char>>, data: Option<Seq<i64>>) -> Option<Seq<Seq<char>>> {
    if pal.len() == 0 {
        Some(plains_cells())
    } else if pal.len() == 1 || data is None || data.unwrap().len() == 0 {
        Some(Seq::new(64, |i: int| normalize_biome(pal[0])))
    } else {
        let bits = biome_bits(pal.len());
        let d = data.unwrap();
        if d.len() == longs_needed(bits, 64) && pal.len() <= 65536 && forall|i: int|
            0 <= i < 64 ==> (#[trigger] decode(bits, 64, d)[i] as int) < pal.len() {
            Some(Seq::new(64, |i: int| pal[decode(bits, 64, d)[i] as int]))
        } else {
            None
        }
    }
}

/// The biome cells of a section tag: plains when it has no `biomes`;
/// `None` when `biomes` has no palette list or cannot be read.
pub open spec fn section_biome_cells(sec: NbtView) -> Option<Seq<Seq<char>>> {
    match child(Some(sec), "biomes"@) {
        None => Some(plains_cells()),
        Some(bio) => match child(Some(bio), "palette"@) {
            Some(NbtView::List(p)) => match biome_palette(p) {
                None => None,
                Some(pal) => biome_cells_of(pal, data_words(child(Some(bio), "data"@))),
            },
            _ => None,
        },
    }
}

proof fn lemma_biome_palette_none_prefix(p: Seq<NbtView>, n: int)
    requires
        0 <= n <= p.len(),
        biome_palette(p.take(n)) is None,
    ensures
        biome_palette(p) is None,
    decreases p.len(),
{
    if n < p.len() {
        assert(p.drop_last().take(n) =~= p.take(n));
        lemma_biome_palette_none_prefix(p.drop_last(), n);
    } else {
        assert(p.take(n) =~= p);
    }
}

/// Reads a section tag's biome cells.
pub fn section_biomes_from_tag(sec: &Nbt) -> (r: Result<SectionBiomes, String>)
    ensures
        match section_biome_cells(sec@) {
            Some(c) => r is Ok && r->Ok_0.wf() && r->Ok_0.cells() == c,
            None => r is Err,
        },
{
    let bio = child_of(Some(sec), "biomes");
    if bio.is_none() {
        return Ok(SectionBiomes::filled("minecraft:plains"));
    }
    match child_of(bio, "palette") {
        Some(Nbt::List(p)) => {
            let ghost lv = crate::nbt::list_view(p@);
            proof {
                lemma_list_view(p@);
            }
            let ghost biov = bio.unwrap()@;
            assert(child(Some(sec@), "biomes"@) == Some(biov));
            assert(child(Some(biov), "palette"@) == Some(NbtView::List(lv)));
            let mut pal: Vec<String> = Vec::new();
            let mut i: usize = 0;
            assert(lv.take(0) =~= Seq::<NbtView>::empty());
            assert(pal@.map_values(|t: String| t@) =~= Seq::<Seq<char>>::empty());
            while i < p.len()
                invariant
                    child(Some(sec@), "biomes"@) == Some(biov),
                    child(Some(biov), "palette"@) == Some(NbtView::List(lv)),
                    i <= p@.len(),
                    lv == crate::nbt::list_view(p@),
                    lv.len() == p@.len(),
                    forall|m: int| 0 <= m < p@.len() ==> #[trigger] lv[m] == p@[m]@,
                    biome_palette(lv.take(i as int)) == Some(pal@.map_values(|t: String| t@)),
                    pal@.len() == i,
                decreases p.len() - i,
            {
                assert(lv.take(i + 1).drop_last() =~= lv.take(i as int));
                assert(lv.take(i + 1).last() == p@[i as int]@);
                match &p[i] {
                    Nbt::Text(t) => {
                        let ghost before = pal@.map_values(|t: String| t@);
                        pal.push(normalize_biome_text(t.as_str()));
                        assert(pal@.map_values(|t: String| t@) =~= before.push(normalize_biome(t@)));
                    },
                    _ => {
                        proof {
                            assert(!(p@[i as int]@ is Text));
                            assert(biome_palette(lv.take(i + 1)) is None);
                            lemma_biome_palette_none_prefix(lv, i + 1);
                        }
                        return Err(string_from("biome palette entry not string"));
                    },
                }
                i += 1;
            }
            assert(lv.take(p@.len() as int) =~= lv);
            let ghost pv = pal@.map_values(|t: String| t@);
            assert(forall|m: int| 0 <= m < pal@.len() ==> #[trigger] pal@[m]@ == pv[m]);
            let data = data_of(child_of(bio, "data"));
            let ghost dv = match &data {
                Some(d) => Some(d@),
                None => None,
            };
            let r = match &data {
                Some(d) => SectionBiomes::from_palette_nbt(pal.as_slice(), Some(d.as_slice())),
                None => SectionBiomes::from_palette_nbt(pal.as_slice(), None),
            };
            match r {
                Ok(b) => {
                    proof {
                        if pv.len() == 0 {
                            assert(b.cells() =~= plains_cells());
                        } else if pv.len() == 1 || dv is None || dv.unwrap().len() == 0 {
                            assert(b.cells() =~= Seq::new(64, |i: int| normalize_biome(pv[0])));
                        } else {
                            let bits = biome_bits(pv.len() as nat);
                            assert(b.cells() =~= Seq::new(64, |i: int| pv[decode(bits, 64, dv.unwrap())[i] as int]));
                        }
                    }
                    assert(biome_cells_of(pv, dv) is Some);
                    Ok(b)
                },
                Err(e) => {
                    assert(biome_cells_of(pv, dv) is None);
                    Err(e)
                },
            }
        },
        _ => Err(string_from("biomes missing palette")),
    }
}

/// Every cell's compact text reads back as the cell.
pub open spec fn all_canonical(cells: Seq<BlockStateView>) -> bool {
    forall|i: int| 0 <= i < cells.len() ==> canonical_state(#[trigger] cells[i])
}

proof fn lemma_bits_words(n: nat)
    requires
        2 <= n <= 4096,
    ensures
        4 <= block_bits(n) <= 12,
        longs_needed(block_bits(n), 4096) > 0,
{
    crate::palette::lemma_ceil_log2(n, 12);
    crate::palette::lemma_p2_12();
    let b = block_bits(n);
    assert(4 <= b <= 12);
    assert(longs_needed(b, 4096) > 0) by (nonlinear_arith)
        requires
            4 <= b <= 12,
            longs_needed(b, 4096) == ((4096 + 64nat / b - 1) as nat / (64nat / b)) as nat,
    {
        assert(64nat / b >= 5);
    }
}

/// Writes a section's blocks as a `block_states` compound: the palette in
/// first-use order and, for more than one state, the packed indices.
/// Canonical cells always write, and read back as themselves.
pub fn block_states_tag(s: &SectionBlocks) -> (r: Result<Nbt, String>)
    requires
        s.wf(),
    ensures
        all_canonical(s.cells()) ==> r is Ok && block_states_cells(r->Ok_0@) == Some(s.cells()),
        r is Err ==> exists|k: int|
            0 <= k < used_keys(s.cells()).len() && parse_state(used_keys(s.cells())[k]) is Err,
{
    let (states, data) = match s.to_palette_states() {
        Ok(p) => p,
        Err(e) => {
            proof {
                let cells = s.cells();
                let keys = used_keys(cells);
                if all_canonical(cells) {
                    let k = choose|k: int| 0 <= k < keys.len() && parse_state(keys[k]) is Err;
                    lemma_used_keys_contains(cells, keys[k]);
                    assert(keys.contains(keys[k]));
                    let i = choose|i: int| 0 <= i < cells.len() && compact(cells[i]) == keys[k];
                    law_compact_round_trip(cells[i]);
                    assert(false);
                }
            }
            return Err(e);
        },
    };
    let ghost cells = s.cells();
    let ghost keys = used_keys(cells);
    let mut tags: Vec<Nbt> = Vec::new();
    let mut i: usize = 0;
    while i < states.len()
        invariant
            i <= states@.len(),
            tags@.len() == i,
            forall|m: int| 0 <= m < i ==> (#[trigger] tags@[m])@ == state_tag(states@[m]@),
        decreases states.len() - i,
    {
        tags.push(state_to_tag(&states[i]));
        i += 1;
    }
    let ghost tv = crate::nbt::list_view(tags@);
    proof {
        lemma_list_view(tags@);
    }
    let mut es: Vec<(String, Nbt)> = Vec::new();
    let ghost dwords = match &data {
        Some(d) => Some(d@),
        None => None,
    };
    match data {
        Some(d) => es.push((string_from("data"), Nbt::LongArray(d))),
        None => {},
    }
    es.push((string_from("palette"), Nbt::List(tags)));
    proof {
        lemma_entries_view(es@);
        reveal_strlit("data");
        reveal_strlit("palette");
        assert("data"@.len() == 4 && "palette"@.len() == 7);
        let ev = entries_view(es@);
        let pj = ev.len() - 1;
        assert(crate::nbt::is_first_key(ev, "palette"@, pj));
        crate::nbt::lemma_first_key_at(ev, "palette"@, pj);
        match dwords {
            Some(dw) => {
                assert(crate::nbt::is_first_key(ev, "data"@, 0));
                crate::nbt::lemma_first_key_at(ev, "data"@, 0);
            },
            None => {
                crate::nbt::lemma_first_key_none(ev, "data"@);
            },
        }
        if all_canonical(cells) {
            lemma_block_states_round_trip(s, states@, dwords, tv);
        }
    }
    Ok(Nbt::Compound(es))
}

proof fn lemma_block_states_round_trip(
    s: &SectionBlocks,
    states: Seq<BlockState>,
    data: Option<Seq<i64>>,
    tv: Seq<NbtView>,
)
    requires
        s.wf(),
        all_canonical(s.cells()),
        states.len() == used_keys(s.cells()).len(),
        forall|k: int|
            0 <= k < used_keys(s.cells()).len() ==> parse_state(used_keys(s.cells())[k]) == Ok::<
                BlockStateView,
                Seq<char>,
            >(#[trigger] states[k]@),
        (data is None <==> block_bits(used_keys(s.cells()).len()) == 0),
        data is Some ==> crate::bitstorage::decode(block_bits(used_keys(s.cells()).len()), 4096, data.unwrap())
            == Seq::new(4096, |i: int| key_index(used_keys(s.cells()), compact(s.cells()[i])) as u32),
        data is Some ==> data.unwrap().len() == longs_needed(block_bits(used_keys(s.cells()).len()), 4096),
        tv.len() == states.len(),
        forall|m: int| 0 <= m < tv.len() ==> #[trigger] tv[m] == state_tag(states[m]@),
    ensures
        palette_states(tv) == Ok::<Seq<BlockStateView>, Seq<char>>(state_views(states)),
        decoded_cells(state_views(states), data) == Some(s.cells()),
{
    let cells = s.cells();
    let keys = used_keys(cells);
    let sv = state_views(states);
    lemma_used_keys_len(cells);
    lemma_used_keys_distinct(cells);
    // each cell's text is a key, and the state at that key is the cell
    assert forall|i: int| 0 <= i < 4096 implies {
        let k = key_index(keys, compact(#[trigger] cells[i]));
        &&& 0 <= k < keys.len()
        &&& keys[k] == compact(cells[i])
        &&& sv[k] == cells[i]
    } by {
        lemma_used_keys_contains(cells, compact(cells[i]));
        assert(keys.contains(compact(cells[i])));
        let j = choose|j: int| 0 <= j < keys.len() && keys[j] == compact(cells[i]);
        lemma_key_index_of_distinct(keys, j);
        law_compact_round_trip(cells[i]);
        assert(parse_state(keys[j]) == Ok::<BlockStateView, Seq<char>>(states[j]@));
    }
    // every state is canonical, so its tag reads back
    assert forall|k: int| 0 <= k < keys.len() implies keys_ascending((#[trigger] sv[k]).props) by {
        lemma_used_keys_contains(cells, keys[k]);
        assert(keys.contains(keys[k]));
        let i = choose|i: int| 0 <= i < cells.len() && compact(cells[i]) == keys[k];
        law_compact_round_trip(cells[i]);
        assert(canonical_state(cells[i]));
    }
    lemma_palette_states_of_tags(tv, sv, tv.len());
    assert(tv.take(tv.len() as int) =~= tv);
    assert(sv.take(sv.len() as int) =~= sv);
    assert(cells.len() == 4096);
    assert(keys.len() >= 1) by {
        lemma_used_keys_contains(cells, compact(cells[0]));
    }
    if keys.len() == 1 {
        assert(block_bits(1) == 0) by {
            reveal_with_fuel(crate::palette::ceil_log2, 2);
        }
        assert(Seq::new(4096, |i: int| sv[0]) =~= cells);
    } else {
        lemma_bits_words(keys.len());
        let bits = block_bits(keys.len());
        let d = data.unwrap();
        assert(forall|i: int| 0 <= i < 4096 ==> (crate::bitstorage::decode(bits, 4096, d)[i] as int) < sv.len());
        assert(Seq::new(4096, |i: int| sv[crate::bitstorage::decode(bits, 4096, d)[i] as int]) =~= cells);
    }
}

proof fn lemma_palette_states_of_tags(tv: Seq<NbtView>, sv: Seq<BlockStateView>, n: nat)
    requires
        tv.len() == sv.len(),
        n <= tv.len(),
        forall|m: int| 0 <= m < tv.len() ==> #[trigger] tv[m] == state_tag(sv[m]),
        forall|m: int| 0 <= m < sv.len() ==> keys_ascending((#[trigger] sv[m]).props),
    ensures
        palette_states(tv.take(n as int)) == Ok::<Seq<BlockStateView>, Seq<char>>(sv.take(n as int)),
    decreases n,
{
    if n == 0 {
        assert(tv.take(0) =~= Seq::<NbtView>::empty());
        assert(sv.take(0) =~= Seq::<BlockStateView>::empty());
    } else {
        lemma_palette_states_of_tags(tv, sv, (n - 1) as nat);
        assert(tv.take(n as int).drop_last() =~= tv.take(n - 1));
        assert(tv.take(n as int).last() == tv[n - 1]);
        assert(keys_ascending(sv[n - 1].props));
        law_state_tag_round_trip(sv[n - 1]);
        assert(sv.take(n - 1).push(sv[n - 1]) =~= sv.take(n as int));
    }
}

/// A section's `Y` (or `y`) as a section index, cut to `i8`; `None` when
/// missing or not an integer.
pub open spec fn section_y_of(sec: NbtView) -> Option<i8> {
    let y = match child(Some(sec), "Y"@) {
        Some(v) => Some(v),
        None => child(Some(sec), "y"@),
    };
    match y {
        Some(v) => match crate::nbt::int_of(v) {
            Some(n) => Some(n as i8),
            None => None,
        },
        None => None,
    }
}

/// The chunk's `sections` list.
pub open spec fn sections_of(root: NbtView) -> Option<Seq<NbtView>> {
    match child(Some(root), "sections"@) {
        Some(NbtView::List(l)) => Some(l),
        _ => None,
    }
}

/// The first section from `i` on whose index is `sy` (`Some(None)` when
/// there is none); `None` when a section before it has no index.
pub open spec fn find_section(secs: Seq<NbtView>, sy: i8, i: nat) -> Option<Option<nat>>
    decreases secs.len() - i,
{
    if i >= secs.len() {
        Some(None)
    } else {
        match section_y_of(secs[i as int]) {
            None => None,
            Some(y) => if y == sy {
                Some(Some(i))
            } else {
                find_section(secs, sy, i + 1)
            },
        }
    }
}

/// The cells of section `sy` of a chunk: all air when it has no such
/// section; `None` when the chunk or the section cannot be read.
pub open spec fn section_cells_at(root: NbtView, sy: i8) -> Option<Seq<BlockStateView>> {
    match sections_of(root) {
        None => None,
        Some(secs) => match find_section(secs, sy, 0) {
            None => None,
            Some(None) => Some(Seq::new(4096, |i: int| air_view())),
            Some(Some(i)) => section_cells(secs[i as int]),
        },
    }
}

/// How many palette entries section `sy` lists (one when it is missing).
pub open spec fn palette_len_at(root: NbtView, sy: i8) -> nat {
    match sections_of(root) {
        None => 0,
        Some(secs) => match find_section(secs, sy, 0) {
            Some(Some(i)) => section_palette_len(secs[i as int]),
            _ => 1,
        },
    }
}

/// The section index of a block height.
pub open spec fn section_of_y(y: i32) -> i8 {
    (y >> 4u32) as i8
}

/// A block's cell inside its section.
pub open spec fn cell_of(x: i32, y: i32, z: i32) -> int {
    index_spec((x % 16) as u8, (y % 16) as u8, (z % 16) as u8) as int
}

/// The biome cells of section `sy`: plains when the section is missing,
/// `None` when the chunk has no section list or the section cannot be read.
pub open spec fn section_biomes_at(root: NbtView, sy: i8) -> Option<Seq<Seq<char>>> {
    match sections_of(root) {
        None => None,
        Some(secs) => match find_section(secs, sy, 0) {
            None => None,
            Some(None) => Some(plains_cells()),
            Some(Some(i)) => section_biome_cells(secs[i as int]),
        },
    }
}

/// The biome at a position of a chunk, `None` when it cannot be read.
pub open spec fn biome_at(root: NbtView, x: i32, y: i32, z: i32) -> Option<Seq<char>> {
    match section_biomes_at(root, section_of_y(y)) {
        Some(c) => Some(c[crate::world_step::biome_cell(x, y, z)]),
        None => None,
    }
}

/// The block at a position of a chunk, `None` when it cannot be read.
pub open spec fn block_at(root: NbtView, x: i32, y: i32, z: i32) -> Option<BlockStateView> {
    match section_cells_at(root, section_of_y(y)) {
        Some(c) => Some(c[cell_of(x, y, z)]),
        None => None,
    }
}

/// Changing one cell of one section, and no other section, changes what
/// reads back at that cell's positions only.
proof fn lemma_block_at_frame(r0: NbtView, r1: NbtView, sy: i8, i: int, st: BlockStateView, c: Seq<BlockStateView>)
    requires
        section_cells_at(r0, sy) == Some(c),
        c.len() == 4096,
        0 <= i < 4096,
        section_cells_at(r1, sy) == Some(c.update(i, st)),
        forall|sy2: i8| sy2 != sy ==> #[trigger] section_cells_at(r1, sy2) == section_cells_at(r0, sy2),
    ensures
        forall|x2: i32, y2: i32, z2: i32|
            #[trigger] block_at(r1, x2, y2, z2) == if section_of_y(y2) == sy && cell_of(x2, y2, z2) == i {
                Some(st)
            } else {
                block_at(r0, x2, y2, z2)
            },
{
    assert forall|x2: i32, y2: i32, z2: i32|
        #[trigger] block_at(r1, x2, y2, z2) == if section_of_y(y2) == sy && cell_of(x2, y2, z2) == i {
            Some(st)
        } else {
            block_at(r0, x2, y2, z2)
        } by {
        if section_of_y(y2) != sy {
            assert(section_cells_at(r1, section_of_y(y2)) == section_cells_at(r0, section_of_y(y2)));
        } else {
            crate::palette::lemma_index_small((x2 % 16) as u8, (y2 % 16) as u8, (z2 % 16) as u8);
            let j = cell_of(x2, y2, z2);
            assert(0 <= j < 4096);
            assert(section_cells_at(r1, section_of_y(y2)) == Some(c.update(i, st)));
            if j != i {
                assert(c.update(i, st)[j] == c[j]);
            }
        }
    }
}

/// A section found from `k` on lies at or after `k`, inside the list.
pub proof fn lemma_find_section_bound(secs: Seq<NbtView>, sy: i8, k: nat)
    ensures
        find_section(secs, sy, k) matches Some(Some(i)) ==> k <= i < secs.len() && section_y_of(
            secs[i as int],
        ) == Some(sy),
    decreases secs.len() - k,
{
    if k < secs.len() {
        lemma_find_section_bound(secs, sy, k + 1);
    }
}

/// Lists whose sections have the same indices find the same section.
pub proof fn lemma_find_section_same_ys(a: Seq<NbtView>, b: Seq<NbtView>, sy: i8, k: nat)
    requires
        a.len() == b.len(),
        forall|m: int| 0 <= m < a.len() ==> section_y_of(#[trigger] a[m]) == section_y_of(b[m]),
    ensures
        find_section(a, sy, k) == find_section(b, sy, k),
    decreases a.len() - k,
{
    if k < a.len() {
        assert(section_y_of(a[k as int]) == section_y_of(b[k as int]));
        lemma_find_section_same_ys(a, b, sy, k + 1);
    }
}

/// A section appended after a list that has none with index `sy` is found
/// when it has that index.
pub proof fn lemma_find_section_push(l: Seq<NbtView>, x: NbtView, sy: i8, k: nat)
    requires
        find_section(l, sy, k) == Some(Option::<nat>::None),
        section_y_of(x) == Some(sy),
        k <= l.len(),
    ensures
        find_section(l.push(x), sy, k) == Some(Some(l.len())),
    decreases l.len() - k,
{
    let lp = l.push(x);
    if k < l.len() {
        assert(lp[k as int] == l[k as int]);
        lemma_find_section_push(l, x, sy, k + 1);
    } else {
        assert(lp[k as int] == x);
    }
}

/// Every section index but `sy` finds the same section, holding the same
/// tag, in `lv2` as in `lv`.
pub open spec fn same_other_sections(lv: Seq<NbtView>, lv2: Seq<NbtView>, sy: i8) -> bool {
    forall|sy2: i8|
        sy2 != sy ==> #[trigger] find_section(lv2, sy2, 0) == find_section(lv, sy2, 0) && (find_section(
            lv,
            sy2,
            0,
        ) matches Some(Some(j)) ==> lv2[j as int] == lv[j as int])
}

/// Appending a section with an index other than `sy2` does not change what
/// `sy2` finds.
pub proof fn lemma_find_section_push_other(l: Seq<NbtView>, x: NbtView, sy2: i8, k: nat)
    requires
        section_y_of(x) is Some,
        section_y_of(x) != Some(sy2),
        k <= l.len(),
    ensures
        find_section(l.push(x), sy2, k) == find_section(l, sy2, k),
    decreases l.len() - k,
{
    let lp = l.push(x);
    if k < l.len() {
        assert(lp[k as int] == l[k as int]);
        lemma_find_section_push_other(l, x, sy2, k + 1);
    } else {
        assert(lp[k as int] == x);
        assert(find_section(lp, sy2, k + 1) == Some(Option::<nat>::None));
    }
}

fn section_y(sec: &Nbt) -> (r: Option<i8>)
    ensures
        r == section_y_of(sec@),
{
    let y = match child_of(Some(sec), "Y") {
        Some(v) => Some(v),
        None => child_of(Some(sec), "y"),
    };
    match crate::nbt::int_value(y) {
        Some(n) => Some(n as i8),
        None => None,
    }
}

/// A new section tag: index `sy`, plains biome, and `bs` as its blocks.
fn new_section_tag(sy: i8, bs: Nbt) -> (r: Nbt)
    ensures
        section_y_of(r@) == Some(sy),
        child(Some(r@), "block_states"@) == Some(bs@),
{
    let mut biome_list: Vec<Nbt> = Vec::new();
    biome_list.push(Nbt::Text(string_from("minecraft:plains")));
    let mut biomes: Vec<(String, Nbt)> = Vec::new();
    biomes.push((string_from("palette"), Nbt::List(biome_list)));
    let mut es: Vec<(String, Nbt)> = Vec::new();
    es.push((string_from("Y"), Nbt::Int(sy as i32)));
    es.push((string_from("biomes"), Nbt::Compound(biomes)));
    es.push((string_from("block_states"), bs));
    proof {
        lemma_entries_view(es@);
        reveal_strlit("Y");
        reveal_strlit("biomes");
        reveal_strlit("block_states");
        assert("Y"@.len() == 1 && "biomes"@.len() == 6 && "block_states"@.len() == 12);
        let ev = entries_view(es@);
        assert(crate::nbt::is_first_key(ev, "Y"@, 0));
        crate::nbt::lemma_first_key_at(ev, "Y"@, 0);
        assert(crate::nbt::is_first_key(ev, "block_states"@, 2));
        crate::nbt::lemma_first_key_at(ev, "block_states"@, 2);
    }
    Nbt::Compound(es)
}

/// A chunk's tag tree and its position.
pub struct ChunkNbt {
    pub root: Nbt,
    pub chunk_x: i32,
    pub chunk_z: i32,
}

impl ChunkNbt {
    /// A chunk read from its tag tree; the position comes from `xPos` and
    /// `zPos` (0 when missing), cut to `i32`.
    pub fn from_root(root: Nbt) -> (r: Self)
        ensures
            r.root@ == root@,
            r.chunk_x == (match crate::level::int_at(child(Some(root@), "xPos"@)) {
                Some(v) => v,
                None => 0,
            }) as i32,
            r.chunk_z == (match crate::level::int_at(child(Some(root@), "zPos"@)) {
                Some(v) => v,
                None => 0,
            }) as i32,
    {
        let cx: i64 = match crate::nbt::int_value(child_of(Some(&root), "xPos")) {
            Some(v) => v,
            None => 0,
        };
        let cz: i64 = match crate::nbt::int_value(child_of(Some(&root), "zPos")) {
            Some(v) => v,
            None => 0,
        };
        ChunkNbt { root, chunk_x: cx as i32, chunk_z: cz as i32 }
    }

    /// The chunk's tag tree.
    pub fn into_root(self) -> (r: Nbt)
        ensures
            r@ == self.root@,
    {
        self.root
    }

    /// Position in the `sections` list of the section with index `sy`.
    #[verifier::loop_isolation(false)]
    pub fn find_section_index(&self, sy: i8) -> (r: Result<Option<usize>, String>)
        ensures
            match sections_of(self.root@) {
                None => r is Err,
                Some(secs) => match find_section(secs, sy, 0) {
                    None => r is Err,
                    Some(None) => r == Ok::<Option<usize>, String>(None),
                    Some(Some(i)) => r is Ok && r->Ok_0 is Some && r->Ok_0->Some_0 as nat == i,
                },
            },
    {
        match child_of(Some(&self.root), "sections") {
            Some(Nbt::List(l)) => {
                let ghost lv = crate::nbt::list_view(l@);
                proof {
                    lemma_list_view(l@);
                }
                let mut i: usize = 0;
                while i < l.len()
                    invariant
                        i <= l@.len(),
                        lv == crate::nbt::list_view(l@),
                        lv.len() == l@.len(),
                        forall|m: int| 0 <= m < l@.len() ==> #[trigger] lv[m] == l@[m]@,
                        find_section(lv, sy, 0) == find_section(lv, sy, i as nat),
                    decreases l.len() - i,
                {
                    match section_y(&l[i]) {
                        None => return Err(string_from("section missing Y")),
                        Some(y) => {
                            if y == sy {
                                return Ok(Some(i));
                            }
                        },
                    }
                    i += 1;
                }
                Ok(None)
            },
            _ => Err(string_from("chunk missing sections")),
        }
    }

    /// The blocks of section `sy` (all air when the chunk has no such
    /// section).
    pub fn read_section_blocks(&self, sy: i8) -> (r: Result<SectionBlocks, String>)
        ensures
            match section_cells_at(self.root@, sy) {
                Some(c) => r is Ok && r->Ok_0.wf() && r->Ok_0.cells() == c && r->Ok_0.palette@.len()
                    <= palette_len_at(self.root@, sy),
                None => r is Err,
            },
    {
        match self.find_section_index(sy) {
            Err(e) => Err(e),
            Ok(None) => {
                let a = SectionBlocks::air();
                assert(a.cells() =~= Seq::new(4096, |i: int| air_view()));
                Ok(a)
            },
            Ok(Some(i)) => match child_of(Some(&self.root), "sections") {
                Some(Nbt::List(l)) => {
                    proof {
                        lemma_list_view(l@);
                        lemma_find_section_bound(crate::nbt::list_view(l@), sy, 0);
                        assert(crate::nbt::list_view(l@)[i as int] == l@[i as int]@);
                        assert(sections_of(self.root@) == Some(crate::nbt::list_view(l@)));
                    }
                    let r = section_from_tag(&l[i]);
                    assert(section_cells_at(self.root@, sy) == section_cells(l@[i as int]@));
                    assert(palette_len_at(self.root@, sy) == section_palette_len(l@[i as int]@));
                    r
                },
                _ => {
                    assert(false);
                    Err(string_from("chunk missing sections"))
                },
            },
        }
    }

    /// The biome cells of section `sy` (plains when it is missing).
    pub fn read_section_biomes(&self, sy: i8) -> (r: Result<SectionBiomes, String>)
        ensures
            match section_biomes_at(self.root@, sy) {
                Some(c) => r is Ok && r->Ok_0.wf() && r->Ok_0.cells() == c,
                None => r is Err,
            },
    {
        match self.find_section_index(sy) {
            Err(e) => Err(e),
            Ok(None) => Ok(SectionBiomes::filled("minecraft:plains")),
            Ok(Some(i)) => match child_of(Some(&self.root), "sections") {
                Some(Nbt::List(l)) => {
                    proof {
                        lemma_list_view(l@);
                        lemma_find_section_bound(crate::nbt::list_view(l@), sy, 0);
                        assert(crate::nbt::list_view(l@)[i as int] == l@[i as int]@);
                        assert(sections_of(self.root@) == Some(crate::nbt::list_view(l@)));
                    }
                    section_biomes_from_tag(&l[i])
                },
                _ => {
                    assert(false);
                    Err(string_from("chunk missing sections"))
                },
            },
        }
    }

    /// The biome at a position of the chunk.
    pub fn get_biome(&self, x: i32, y: i32, z: i32) -> (r: Result<String, String>)
        ensures
            match biome_at(self.root@, x, y, z) {
                Some(b) => r is Ok && r->Ok_0@ == b,
                None => r is Err,
            },
    {
        let (_, _, _, sy) = crate::chunk::local_in_chunk(x, y, z);
        let (bx, by, bz) = crate::chunk::biome_local(x, y, z);
        proof {
            assert(biome_index_spec(bx, by, bz) == by * 16 + bz * 4 + bx) by (bit_vector)
                requires
                    bx < 4,
                    by < 4,
                    bz < 4,
            ;
        }
        match self.read_section_biomes(sy) {
            Err(e) => Err(e),
            Ok(b) => Ok(string_from(b.get(bx, by, bz))),
        }
    }

    /// The block at a position of the chunk.
    pub fn get_block(&self, x: i32, y: i32, z: i32) -> (r: Result<BlockState, String>)
        ensures
            match block_at(self.root@, x, y, z) {
                Some(b) => r is Ok && r->Ok_0@ == b,
                None => r is Err,
            },
    {
        let (lx, ly, lz, sy) = crate::chunk::local_in_chunk(x, y, z);
        proof {
            crate::palette::lemma_index_small(lx, ly, lz);
        }
        match self.read_section_blocks(sy) {
            Err(e) => Err(e),
            Ok(s) => Ok(s.get(lx, ly, lz).duplicate()),
        }
    }

    /// Sets the block at a position and returns the block it replaces. The
    /// section is re-encoded; a chunk without that section gets a new one
    /// (plains biome). On an error nothing changes.
    #[verifier::spinoff_prover]
    #[verifier::rlimit(40)]
    pub fn set_block(&mut self, x: i32, y: i32, z: i32, state: BlockState) -> (r: Result<BlockState, String>)
        ensures
            final(self).chunk_x == old(self).chunk_x,
            final(self).chunk_z == old(self).chunk_z,
            r is Err ==> final(self).root@ == old(self).root@,
            section_cells_at(old(self).root@, section_of_y(y)) is None ==> r is Err,
            r is Ok ==> block_at(old(self).root@, x, y, z) == Some(r->Ok_0@),
            section_cells_at(old(self).root@, section_of_y(y)) matches Some(c) ==> (all_canonical(c)
                && canonical_state(state@) && palette_len_at(old(self).root@, section_of_y(y)) < 65536
                ==> r is Ok && block_at(final(self).root@, x, y, z) == Some(state@)
                && section_cells_at(final(self).root@, section_of_y(y)) == Some(
                c.update(cell_of(x, y, z), state@),
            ) && forall|x2: i32, y2: i32, z2: i32|
                #[trigger] block_at(final(self).root@, x2, y2, z2) == if section_of_y(y2) == section_of_y(y)
                    && cell_of(x2, y2, z2) == cell_of(x, y, z) {
                    Some(state@)
                } else {
                    block_at(old(self).root@, x2, y2, z2)
                }),
            r is Ok ==> forall|sy2: i8|
                sy2 != section_of_y(y) ==> #[trigger] section_cells_at(final(self).root@, sy2)
                    == section_cells_at(old(self).root@, sy2),
    {
        let (lx, ly, lz, sy) = crate::chunk::local_in_chunk(x, y, z);
        proof {
            crate::palette::lemma_index_small(lx, ly, lz);
        }
        let ghost root0 = self.root@;
        let ghost state_v = state@;
        let mut sec = match self.read_section_blocks(sy) {
            Err(e) => return Err(e),
            Ok(s) => s,
        };
        let ghost cells0 = sec.cells();
        let ghost pal0 = sec.palette@.len();
        let before = sec.get(lx, ly, lz).duplicate();
        sec.set(lx, ly, lz, state);
        let ghost cells1 = sec.cells();
        let bs = match block_states_tag(&sec) {
            Err(e) => return Err(e),
            Ok(b) => b,
        };
        let ghost bv = bs@;
        let idx = self.find_section_index(sy);
        let mut root = Nbt::Byte(0);
        std::mem::swap(&mut root, &mut self.root);
        match root {
            Nbt::Compound(mut es) => {
                proof {
                    lemma_entries_view(es@);
                }
                let ghost ev = entries_view(es@);
                match entry_index(&es, "sections") {
                    Some(j) => {
                        let ghost old_es = es@;
                        let (k, cur) = es.remove(j);
                        match cur {
                            Nbt::List(mut l) => {
                                proof {
                                    lemma_list_view(l@);
                                }
                                let ghost lv = crate::nbt::list_view(l@);
                                assert(ev[j as int].1 == NbtView::List(lv));
                                assert(sections_of(root0) == Some(lv));
                                match idx {
                                    Ok(Some(i)) => {
                                        proof {
                                            lemma_find_section_bound(lv, sy, 0);
                                        }
                                        let sec_t = l.remove(i);
                                        match sec_t {
                                            Nbt::Compound(mut se) => {
                                                proof {
                                                    lemma_entries_view(se@);
                                                }
                                                let ghost sev = entries_view(se@);
                                                compound_set(&mut se, "block_states", bs);
                                                proof {
                                                    reveal_strlit("Y");
                                                    reveal_strlit("y");
                                                    reveal_strlit("block_states");
                                                    assert("block_states"@.len() == 12 && "Y"@.len() == 1 && "y"@.len() == 1);
                                                    crate::nbt::lemma_put_get_other(sev, "block_states"@, bv, "Y"@);
                                                    crate::nbt::lemma_put_get_other(sev, "block_states"@, bv, "y"@);
                                                    crate::nbt::lemma_put_get_same(sev, "block_states"@, bv);
                                                }
                                                l.insert(i, Nbt::Compound(se));
                                                proof {
                                                    lemma_list_view(l@);
                                                    let lv2 = crate::nbt::list_view(l@);
                                                    assert forall|m: int| 0 <= m < lv2.len() implies section_y_of(
                                                        #[trigger] lv2[m],
                                                    ) == section_y_of(lv[m]) by {
                                                        if m != i {
                                                            assert(lv2[m] == lv[m]);
                                                        }
                                                    }
                                                    lemma_find_section_same_ys(lv2, lv, sy, 0);
                                                    assert forall|sy2: i8| sy2 != sy implies #[trigger] find_section(lv2, sy2, 0)
                                                        == find_section(lv, sy2, 0) && (find_section(lv, sy2, 0) matches Some(
                                                        Some(jj),
                                                    ) ==> lv2[jj as int] == lv[jj as int]) by {
                                                        lemma_find_section_same_ys(lv2, lv, sy2, 0);
                                                        lemma_find_section_bound(lv, sy2, 0);
                                                        if let Some(Some(jj)) = find_section(lv, sy2, 0) {
                                                            if jj == i {
                                                                assert(section_y_of(lv[i as int]) == Some(sy));
                                                            }
                                                        }
                                                    }
                                                    assert(same_other_sections(lv, lv2, sy));
                                                }
                                            },
                                            _ => {
                                                assert(false);
                                                return Err(string_from("section not object"));
                                            },
                                        }
                                    },
                                    Ok(None) => {
                                        let ns = new_section_tag(sy, bs);
                                        let ghost nsv = ns@;
                                        l.push(ns);
                                        proof {
                                            lemma_list_view(l@);
                                            let lv2 = crate::nbt::list_view(l@);
                                            assert(lv2 =~= lv.push(nsv));
                                            lemma_find_section_push(lv, nsv, sy, 0);
                                            assert forall|sy2: i8| sy2 != sy implies #[trigger] find_section(lv2, sy2, 0)
                                                == find_section(lv, sy2, 0) && (find_section(lv, sy2, 0) matches Some(
                                                Some(jj),
                                            ) ==> lv2[jj as int] == lv[jj as int]) by {
                                                lemma_find_section_push_other(lv, nsv, sy2, 0);
                                                lemma_find_section_bound(lv, sy2, 0);
                                            }
                                            assert(same_other_sections(lv, lv2, sy));
                                        }
                                    },
                                    Err(_) => {
                                        assert(false);
                                        return Err(string_from("chunk missing sections"));
                                    },
                                }
                                let ghost lv2 = crate::nbt::list_view(l@);
                                es.insert(j, (k, Nbt::List(l)));
                                proof {
                                    lemma_entries_view(es@);
                                    assert(ev[j as int].0 == "sections"@);
                                    assert(entries_view(es@) =~= ev.update(j as int, ("sections"@, NbtView::List(lv2))));
                                    crate::nbt::lemma_put_get_same(ev, "sections"@, NbtView::List(lv2));
                                    assert(sections_of(NbtView::Compound(entries_view(es@))) == Some(lv2));
                                    assert(same_other_sections(lv, lv2, sy));
                                    assert forall|sy2: i8| sy2 != sy implies #[trigger] section_cells_at(
                                        NbtView::Compound(entries_view(es@)),
                                        sy2,
                                    ) == section_cells_at(root0, sy2) by {
                                        assert(find_section(lv2, sy2, 0) == find_section(lv, sy2, 0));
                                    }
                                }
                                self.root = Nbt::Compound(es);
                                proof {
                                    if section_cells_at(root0, sy) is Some {
                                        let c = section_cells_at(root0, sy)->Some_0;
                                        if section_cells_at(self.root@, sy) == Some(
                                            c.update(cell_of(x, y, z), state_v),
                                        ) && c.len() == 4096 && 0 <= cell_of(x, y, z) < 4096 {
                                            lemma_block_at_frame(root0, self.root@, sy, cell_of(x, y, z), state_v, c);
                                        }
                                    }
                                }
                                Ok(before)
                            },
                            _ => {
                                assert(false);
                                Err(string_from("sections is not a list"))
                            },
                        }
                    },
                    None => {
                        assert(false);
                        Err(string_from("chunk missing sections"))
                    },
                }
            },
            _ => {
                assert(false);
                Err(string_from("chunk missing sections"))
            },
        }
    }
}

} // verus!
