//! Templates read from and written as Sponge schematic block payloads: the
//! palette map, the varint block data, and the dense palette of the result.

use vstd::prelude::*;
use crate::blockstate::{compact, parse_state, BlockState};
use crate::indexset::{index_set_insert_full, index_set_into_vec, index_set_items, index_set_new};
use crate::level::string_views;
use crate::palette::{
    key_index, lemma_key_index_of_distinct, lemma_tally_insert_total, tally_add, tally_insert, tally_total,
    tally_view,
};
use crate::style::{first_n, lemma_ranked_len, rank_pairs, ranked};
use crate::schem::{read_all, read_varints, varint_bytes, varints_bytes, write_varint, VarintsRead};
use crate::template::Template;
use crate::text::{append_str, chars_of, copy_string, has_char, nat_text, push_nat, string_from, string_of};

verus! {

/// A block name as a template palette stores it: the compact form of the
/// state it parses to, else the text itself with `minecraft:` added when it
/// has no namespace.
pub open spec fn normalized_name(s: Seq<char>) -> Seq<char> {
    match parse_state(s) {
        Ok(b) => compact(b),
        Err(_) => if s.contains(':') {
            s
        } else {
            "minecraft:"@ + s
        },
    }
}

/// Normalise a block name for a template palette.
pub fn normalize_block_name(s: &str) -> (r: String)
    ensures
        r@ == normalized_name(s@),
{
    match BlockState::parse(s) {
        Ok(b) => b.to_compact(),
        Err(_) => {
            if has_char(&chars_of(s), ':') {
                string_from(s)
            } else {
                let mut m = chars_of("minecraft:");
                append_str(&mut m, s);
                string_of(&m)
            }
        },
    }
}

pub open spec fn air_name() -> Seq<char> {
    "minecraft:air"@
}

/// Palette slots after placing the first `k` (name, index) entries: the
/// list starts with one empty slot per entry and grows to reach an index.
pub open spec fn slots_upto(p: Seq<(String, usize)>, k: nat) -> Seq<Seq<char>>
    decreases k,
{
    if k == 0 {
        Seq::new(p.len(), |i: int| Seq::<char>::empty())
    } else {
        let s = slots_upto(p, (k - 1) as nat);
        let n = p[k - 1].0@;
        let i = p[k - 1].1 as int;
        let s2 = if i >= s.len() {
            s + Seq::new((i + 1 - s.len()) as nat, |j: int| Seq::<char>::empty())
        } else {
            s
        };
        s2.update(i, n)
    }
}

/// The palette by index: each entry's name at its index (a later entry for
/// the same index wins), `minecraft:air` in the slots no entry names.
pub open spec fn palette_slots(p: Seq<(String, usize)>) -> Seq<Seq<char>> {
    let s = slots_upto(p, p.len());
    Seq::new(
        s.len(),
        |i: int|
            if s[i].len() == 0 {
                air_name()
            } else {
                s[i]
            },
    )
}

/// Lay a schematic palette map (name, index) out by index.
pub fn schem_palette_slots(palette: &[(String, usize)]) -> (r: Vec<String>)
    requires
        forall|j: int| 0 <= j < palette@.len() ==> (#[trigger] palette@[j]).1 < usize::MAX,
    ensures
        string_views(r@) == palette_slots(palette@),
{
    let mut ordered: Vec<String> = Vec::new();
    let mut f: usize = 0;
    while f < palette.len()
        invariant
            f <= palette@.len(),
            string_views(ordered@) == Seq::new(f as nat, |i: int| Seq::<char>::empty()),
        decreases palette.len() - f,
    {
        let ghost before = string_views(ordered@);
        ordered.push(String::new());
        assert(string_views(ordered@) =~= before.push(Seq::<char>::empty()));
        assert(string_views(ordered@) =~= Seq::new((f + 1) as nat, |i: int| Seq::<char>::empty()));
        f += 1;
    }
    let mut k: usize = 0;
    while k < palette.len()
        invariant
            k <= palette@.len(),
            forall|j: int| 0 <= j < palette@.len() ==> (#[trigger] palette@[j]).1 < usize::MAX,
            string_views(ordered@) == slots_upto(palette@, k as nat),
        decreases palette.len() - k,
    {
        let idx = palette[k].1;
        let ghost s = string_views(ordered@);
        while ordered.len() <= idx
            invariant
                idx < usize::MAX,
                s.len() <= ordered@.len(),
                ordered@.len() > s.len() ==> ordered@.len() <= idx + 1,
                string_views(ordered@) == s + Seq::new(
                    (ordered@.len() - s.len()) as nat,
                    |j: int| Seq::<char>::empty(),
                ),
            decreases idx + 1 - ordered.len(),
        {
            let ghost before = string_views(ordered@);
            ordered.push(String::new());
            assert(string_views(ordered@) =~= before.push(Seq::<char>::empty()));
            assert(string_views(ordered@) =~= s + Seq::new(
                (ordered@.len() - s.len()) as nat,
                |j: int| Seq::<char>::empty(),
            ));
        }
        let ghost grown = string_views(ordered@);
        ordered.set(idx, copy_string(&palette[k].0));
        proof {
            let s2 = if idx as int >= s.len() {
                s + Seq::new((idx + 1 - s.len()) as nat, |j: int| Seq::<char>::empty())
            } else {
                s
            };
            assert(grown =~= s2);
            assert(string_views(ordered@) =~= s2.update(idx as int, palette@[k as int].0@));
        }
        k += 1;
    }
    let ghost s = string_views(ordered@);
    let mut out: Vec<String> = Vec::new();
    let mut i: usize = 0;
    while i < ordered.len()
        invariant
            i <= ordered@.len(),
            s == string_views(ordered@),
            s == slots_upto(palette@, palette@.len()),
            string_views(out@) == palette_slots(palette@).take(i as int),
        decreases ordered.len() - i,
    {
        let ghost before = string_views(out@);
        let x = if chars_of(ordered[i].as_str()).len() == 0 {
            string_from("minecraft:air")
        } else {
            copy_string(&ordered[i])
        };
        assert(x@ == palette_slots(palette@)[i as int]);
        out.push(x);
        assert(string_views(out@) =~= before.push(x@));
        assert(string_views(out@) =~= palette_slots(palette@).take(i + 1));
        i += 1;
    }
    assert(palette_slots(palette@).take(ordered@.len() as int) =~= palette_slots(palette@));
    out
}

/// The distinct names of `xs`, in first-use order.
pub open spec fn first_seen(xs: Seq<Seq<char>>) -> Seq<Seq<char>>
    decreases xs.len(),
{
    if xs.len() == 0 {
        seq![]
    } else {
        let prev = first_seen(xs.drop_last());
        if prev.contains(xs.last()) {
            prev
        } else {
            prev.push(xs.last())
        }
    }
}

pub proof fn lemma_first_seen_props(xs: Seq<Seq<char>>)
    ensures
        forall|a: int, b: int|
            0 <= a < b < first_seen(xs).len() ==> first_seen(xs)[a] != first_seen(xs)[b],
        forall|i: int| 0 <= i < xs.len() ==> first_seen(xs).contains(#[trigger] xs[i]),
        first_seen(xs).len() <= xs.len(),
    decreases xs.len(),
{
    if xs.len() > 0 {
        let pre = xs.drop_last();
        lemma_first_seen_props(pre);
        let prev = first_seen(pre);
        let cur = first_seen(xs);
        assert forall|i: int| 0 <= i < xs.len() implies cur.contains(#[trigger] xs[i]) by {
            if i < xs.len() - 1 {
                assert(pre[i] == xs[i]);
                assert(prev.contains(pre[i]));
                let j = choose|j: int| 0 <= j < prev.len() && prev[j] == pre[i];
                if !prev.contains(xs.last()) {
                    assert(cur[j] == prev[j]);
                }
            } else if !prev.contains(xs.last()) {
                assert(cur[prev.len() as int] == xs.last());
            }
        }
        if !prev.contains(xs.last()) {
            assert forall|a: int, b: int| 0 <= a < b < cur.len() implies cur[a] != cur[b] by {
                if b == prev.len() {
                    assert(prev[a] != xs.last());
                }
            }
        }
    }
}

/// The name of each cell: its palette slot (air past the slots), normalised.
pub open spec fn cell_names(slots: Seq<Seq<char>>, ids: Seq<u32>) -> Seq<Seq<char>> {
    Seq::new(
        ids.len(),
        |i: int|
            normalized_name(
                if (ids[i] as int) < slots.len() {
                    slots[ids[i] as int]
                } else {
                    air_name()
                },
            ),
    )
}

/// The dense palette of an imported template: air first, then each cell's
/// name the first time it appears.
pub open spec fn dense_palette(names: Seq<Seq<char>>) -> Seq<Seq<char>> {
    first_seen(seq![air_name()] + names)
}

/// What importing a schematic payload of `w × h × l` cells gives: the dense
/// palette and one palette index per cell, or the error met.
pub open spec fn schem_import(w: u16, h: u16, l: u16, p: Seq<(String, usize)>, data: Seq<u8>) -> Result<
    (Seq<Seq<char>>, Seq<u16>),
    Seq<char>,
> {
    let vol = (w * h * l) as nat;
    match read_all(data, vol, 0, seq![]) {
        VarintsRead::Failed(m) => Err(m),
        VarintsRead::ShiftOverflow => Err(seq![]),
        VarintsRead::Done(ids) => if ids.len() != vol {
            Err(
                "schem BlockData length "@ + nat_text(ids.len()) + " != volume "@ + nat_text(vol),
            )
        } else {
            let names = cell_names(palette_slots(p), ids);
            let dense = dense_palette(names);
            Ok((dense, Seq::new(vol, |i: int| key_index(dense, names[i]) as u16)))
        },
    }
}

/// Build a template from a schematic's size, palette map and block data.
pub fn schem_template(
    name: &str,
    w: u16,
    h: u16,
    l: u16,
    palette: &[(String, usize)],
    data: &[u8],
) -> (r: Result<Template, String>)
    requires
        w * h * l <= usize::MAX,
        forall|j: int| 0 <= j < palette@.len() ==> (#[trigger] palette@[j]).1 < usize::MAX,
        !(read_all(data@, (w * h * l) as nat, 0, seq![]) is ShiftOverflow),
    ensures
        match schem_import(w, h, l, palette@, data@) {
            Ok((dense, blocks)) => r is Ok && r->Ok_0.name@ == name@ && r->Ok_0.size@ == seq![
                w as u32,
                h as u32,
                l as u32,
            ] && string_views(r->Ok_0.palette@) == dense && r->Ok_0.blocks@ == blocks,
            Err(m) => r is Err && r->Err_0@ == m,
        },
{
    let ordered = schem_palette_slots(palette);
    assert(w * h <= 0xffff_ffff) by (nonlinear_arith)
        requires
            w <= 0xffff,
            h <= 0xffff,
    ;
    let volume: usize = (w as usize) * (h as usize) * (l as usize);
    let ids = read_varints(data, volume)?;
    if ids.len() != volume {
        let mut m = chars_of("schem BlockData length ");
        push_nat(&mut m, ids.len() as u64);
        append_str(&mut m, " != volume ");
        push_nat(&mut m, volume as u64);
        return Err(string_of(&m));
    }
    let ghost slots = string_views(ordered@);
    let ghost names = cell_names(slots, ids@);
    let ghost all = seq![air_name()] + names;
    let mut dense = index_set_new();
    let _ = index_set_insert_full(&mut dense, string_from("minecraft:air"));
    assert(all.take(1) =~= seq![air_name()]);
    assert(first_seen(all.take(1)) =~= seq![air_name()]) by {
        assert(all.take(1).drop_last() =~= Seq::<Seq<char>>::empty());
        assert(first_seen(Seq::<Seq<char>>::empty()) =~= Seq::<Seq<char>>::empty());
        assert(all.take(1).last() == air_name());
    }
    let mut blocks: Vec<u16> = Vec::new();
    let mut i: usize = 0;
    while i < ids.len()
        invariant
            i <= ids@.len(),
            slots == string_views(ordered@),
            names == cell_names(slots, ids@),
            all == seq![air_name()] + names,
            index_set_items(dense) == first_seen(all.take(i + 1)),
            blocks@.len() == i,
            forall|j: int| 0 <= j < i ==> #[trigger] blocks@[j] == key_index(
                first_seen(all.take(i + 1)),
                names[j],
            ) as u16,
        decreases ids.len() - i,
    {
        let id = ids[i];
        let n = if (id as usize) < ordered.len() {
            normalize_block_name(ordered[id as usize].as_str())
        } else {
            normalize_block_name("minecraft:air")
        };
        assert(n@ == names[i as int]);
        let ghost before = first_seen(all.take(i + 1));
        assert(all.take(i + 2).drop_last() =~= all.take(i + 1));
        assert(all.take(i + 2).last() == names[i as int]);
        let (idx, _) = index_set_insert_full(&mut dense, n);
        let ghost after = first_seen(all.take(i + 2));
        proof {
            lemma_first_seen_props(all.take(i + 2));
            lemma_first_seen_props(all.take(i + 1));
            assert(after[idx as int] == names[i as int]);
            lemma_key_index_of_distinct(after, idx as int);
            assert forall|j: int| 0 <= j < i implies key_index(before, names[j]) == key_index(
                after,
                names[j],
            ) by {
                assert(all.take(i + 1)[j + 1] == names[j]);
                assert(before.contains(all.take(i + 1)[j + 1]));
                let q = choose|q: int| 0 <= q < before.len() && before[q] == names[j];
                lemma_key_index_of_distinct(before, q);
                assert(after[q] == before[q]);
                lemma_key_index_of_distinct(after, q);
            }
        }
        blocks.push(idx as u16);
        i += 1;
    }
    assert(all.take(ids@.len() + 1int) =~= all);
    let pal = index_set_into_vec(dense);
    let ghost d = first_seen(all);
    assert(string_views(pal@) =~= d);
    assert(blocks@ =~= Seq::new(volume as nat, |k: int| key_index(d, names[k]) as u16));
    Ok(Template { name: string_from(name), size: [w as u32, h as u32, l as u32], palette: pal, blocks })
}

/// A template palette as a schematic palette map: each name with its index.
pub open spec fn palette_entries(palette: Seq<String>) -> Seq<(String, usize)> {
    Seq::new(palette.len(), |i: int| (palette[i], i as usize))
}

/// The palette map a schematic export writes.
pub fn schem_palette_map(palette: &Vec<String>) -> (r: Vec<(String, usize)>)
    ensures
        r@.len() == palette@.len(),
        forall|i: int|
            0 <= i < palette@.len() ==> (#[trigger] r@[i]).0@ == palette@[i]@ && r@[i].1 == i,
{
    let mut out: Vec<(String, usize)> = Vec::new();
    let mut i: usize = 0;
    while i < palette.len()
        invariant
            i <= palette@.len(),
            out@.len() == i,
            forall|j: int| 0 <= j < i ==> (#[trigger] out@[j]).0@ == palette@[j]@ && out@[j].1 == j,
        decreases palette.len() - i,
    {
        out.push((copy_string(&palette[i]), i));
        i += 1;
    }
    out
}

pub open spec fn block_ids(blocks: Seq<u16>) -> Seq<u32> {
    blocks.map_values(|b: u16| b as u32)
}

proof fn lemma_varints_push(vs: Seq<u32>, v: u32)
    ensures
        varints_bytes(vs.push(v)) == varints_bytes(vs) + varint_bytes(v as nat),
    decreases vs.len(),
{
    if vs.len() == 0 {
        assert(vs.push(v).drop_first() =~= Seq::<u32>::empty());
        assert(varints_bytes(Seq::<u32>::empty()) =~= Seq::<u8>::empty());
        assert(vs.push(v)[0] == v);
        assert(varints_bytes(vs.push(v)) =~= varint_bytes(v as nat) + Seq::<u8>::empty());
        assert(varints_bytes(vs) =~= Seq::<u8>::empty());
    } else {
        lemma_varints_push(vs.drop_first(), v);
        assert(vs.push(v).drop_first() =~= vs.drop_first().push(v));
        assert(varints_bytes(vs.push(v)) =~= varints_bytes(vs) + varint_bytes(v as nat));
    }
}

/// The block data a schematic export writes: one varint per cell.
pub fn schem_block_data(blocks: &[u16]) -> (r: Vec<u8>)
    ensures
        r@ == varints_bytes(block_ids(blocks@)),
{
    let mut out: Vec<u8> = Vec::new();
    let mut i: usize = 0;
    while i < blocks.len()
        invariant
            i <= blocks@.len(),
            out@ == varints_bytes(block_ids(blocks@).take(i as int)),
        decreases blocks.len() - i,
    {
        proof {
            lemma_varints_push(block_ids(blocks@).take(i as int), blocks@[i as int] as u32);
            assert(block_ids(blocks@).take(i + 1) =~= block_ids(blocks@).take(i as int).push(
                blocks@[i as int] as u32,
            ));
        }
        write_varint(&mut out, blocks[i] as u32);
        i += 1;
    }
    assert(block_ids(blocks@).take(blocks@.len() as int) =~= block_ids(blocks@));
    out
}

proof fn lemma_slots_of_entries(palette: Seq<String>, k: nat)
    requires
        k <= palette.len(),
        palette.len() <= usize::MAX,
    ensures
        slots_upto(palette_entries(palette), k) == Seq::new(
            palette.len(),
            |i: int|
                if i < k {
                    palette[i]@
                } else {
                    Seq::<char>::empty()
                },
        ),
    decreases k,
{
    if k > 0 {
        lemma_slots_of_entries(palette, (k - 1) as nat);
        let p = palette_entries(palette);
        assert(p[k - 1] == (palette[k - 1], (k - 1) as usize));
        assert(((k - 1) as usize) as int == k - 1);
        assert(slots_upto(palette_entries(palette), k) =~= Seq::new(
            palette.len(),
            |i: int|
                if i < k {
                    palette[i]@
                } else {
                    Seq::<char>::empty()
                },
        ));
    }
}

/// Importing what an export wrote gives every cell its block back: the
/// imported palette holds, for each cell, the normalised name of the block
/// the template had there (a template whose palette names are distinct and
/// non-empty, whose cells all name a palette entry). Where the imported
/// palette fits `u16` indices, the cell's index points at that name.
pub proof fn law_export_then_import_keeps_blocks(w: u16, h: u16, l: u16, palette: Seq<String>, blocks: Seq<u16>)
    requires
        blocks.len() == w * h * l,
        palette.len() <= usize::MAX,
        forall|i: int| 0 <= i < blocks.len() ==> (#[trigger] blocks[i] as int) < palette.len(),
        forall|a: int, b: int| 0 <= a < b < palette.len() ==> palette[a]@ != palette[b]@,
        forall|a: int| 0 <= a < palette.len() ==> (#[trigger] palette[a]@).len() > 0,
    ensures
        ({
            let imported = schem_import(
                w,
                h,
                l,
                palette_entries(palette),
                varints_bytes(block_ids(blocks)),
            );
            &&& imported is Ok
            &&& forall|i: int|
                0 <= i < blocks.len() ==> {
                    let (dense, got) = imported->Ok_0;
                    let want = normalized_name(palette[#[trigger] blocks[i] as int]@);
                    let k = key_index(dense, want);
                    &&& 0 <= k < dense.len()
                    &&& dense[k] == want
                    &&& got[i] == k as u16
                    &&& (dense.len() <= 0x10000 ==> dense[got[i] as int] == want)
                }
        }),
{
    let vol = (w * h * l) as nat;
    let ids = block_ids(blocks);
    crate::schem::law_varint_roundtrip(ids, vol);
    let p = palette_entries(palette);
    lemma_slots_of_entries(palette, palette.len());
    let slots = palette_slots(p);
    assert forall|j: int| 0 <= j < palette.len() implies slots[j] == palette[j]@ by {}
    let names = cell_names(slots, ids);
    let all = seq![air_name()] + names;
    let dense = dense_palette(names);
    lemma_first_seen_props(all);
    assert forall|i: int| 0 <= i < blocks.len() implies {
        let want = normalized_name(palette[#[trigger] blocks[i] as int]@);
        let k = key_index(dense, want);
        &&& 0 <= k < dense.len()
        &&& dense[k] == want
    } by {
        let want = normalized_name(palette[blocks[i] as int]@);
        assert(names[i] == want);
        assert(all[i + 1] == names[i]);
        assert(dense.contains(all[i + 1]));
        let q = choose|q: int| 0 <= q < dense.len() && dense[q] == want;
        lemma_key_index_of_distinct(dense, q);
    }
}

/// The normalised block name that block id `id` stands for: its palette
/// slot, or air past the end of the palette.
pub open spec fn id_name(slots: Seq<Seq<char>>, id: u32) -> Seq<char> {
    if (id as int) < slots.len() {
        normalized_name(slots[id as int])
    } else {
        normalized_name(air_name())
    }
}

/// The ids' names counted in key order.
pub open spec fn id_tally(slots: Seq<Seq<char>>, ids: Seq<u32>) -> Seq<(Seq<char>, nat)>
    decreases ids.len(),
{
    if ids.len() == 0 {
        seq![]
    } else {
        tally_insert(id_tally(slots, ids.drop_last()), id_name(slots, ids.last()))
    }
}

/// The `top_n` most common blocks of a schematic of `volume` cells with this
/// palette map and block data, most common first and ties by name; nothing
/// for an empty volume; the decoding error for bad data.
pub open spec fn histogram_spec(palette: Seq<(String, usize)>, data: Seq<u8>, volume: usize, top_n: usize) -> Result<
    Seq<(Seq<char>, nat)>,
    Seq<char>,
> {
    if volume == 0 {
        Ok(seq![])
    } else {
        match read_all(data, volume as nat, 0, seq![]) {
            VarintsRead::Done(ids) => Ok(
                first_n(ranked(id_tally(palette_slots(palette), ids)), top_n as nat),
            ),
            VarintsRead::Failed(m) => Err(m),
            VarintsRead::ShiftOverflow => Err(seq![]),
        }
    }
}

/// Count the blocks of a schematic's data by normalised name and keep the
/// `top_n` most common.
pub fn block_histogram(palette: &[(String, usize)], data: &[u8], volume: usize, top_n: usize) -> (r:
    Result<Vec<(String, usize)>, String>)
    requires
        forall|j: int| 0 <= j < palette@.len() ==> (#[trigger] palette@[j]).1 < usize::MAX,
        !(read_all(data@, volume as nat, 0, seq![]) is ShiftOverflow),
    ensures
        match histogram_spec(palette@, data@, volume, top_n) {
            Ok(t) => r is Ok && tally_view(r->Ok_0@) == t,
            Err(m) => r is Err && r->Err_0@ == m,
        },
{
    if volume == 0 {
        let out: Vec<(String, usize)> = Vec::new();
        assert(tally_view(out@) =~= Seq::<(Seq<char>, nat)>::empty());
        return Ok(out);
    }
    let ordered = schem_palette_slots(palette);
    let ids = match read_varints(data, volume) {
        Ok(v) => v,
        Err(m) => return Err(m),
    };
    let ghost slots = string_views(ordered@);
    let air = BlockState::air().to_compact();
    proof {
        reveal_strlit("minecraft:air");
    }
    let mut counts: Vec<(String, usize)> = Vec::new();
    let mut k: usize = 0;
    assert(ids@.take(0) =~= Seq::<u32>::empty());
    assert(tally_view(counts@) =~= Seq::<(Seq<char>, nat)>::empty());
    while k < ids.len()
        invariant
            k <= ids@.len(),
            slots == string_views(ordered@),
            air@ == air_name(),
            tally_view(counts@) == id_tally(slots, ids@.take(k as int)),
            tally_total(tally_view(counts@)) == k,
        decreases ids.len() - k,
    {
        assert(ids@.take(k + 1).drop_last() =~= ids@.take(k as int));
        assert(ids@.take(k + 1).last() == ids@[k as int]);
        let id = ids[k];
        let name = if (id as usize) < ordered.len() {
            normalize_block_name(ordered[id as usize].as_str())
        } else {
            normalize_block_name(air.as_str())
        };
        proof {
            lemma_tally_insert_total(tally_view(counts@), name@);
        }
        counts = tally_add(&counts, name);
        k += 1;
    }
    assert(ids@.take(ids@.len() as int) =~= ids@);
    let ranked_all = rank_pairs(&counts);
    proof {
        lemma_ranked_len(tally_view(counts@));
    }
    let n: usize = if ranked_all.len() < top_n {
        ranked_all.len()
    } else {
        top_n
    };
    let mut out: Vec<(String, usize)> = Vec::new();
    let mut j: usize = 0;
    while j < n
        invariant
            j <= n,
            n <= ranked_all@.len(),
            tally_view(out@) == tally_view(ranked_all@).take(j as int),
        decreases n - j,
    {
        let ghost before = tally_view(out@);
        out.push((copy_string(&ranked_all[j].0), ranked_all[j].1));
        assert(tally_view(ranked_all@)[j as int] == (ranked_all@[j as int].0@, ranked_all@[j as int].1 as nat));
        assert(tally_view(out@) =~= before.push(tally_view(ranked_all@)[j as int]));
        assert(tally_view(out@) =~= tally_view(ranked_all@).take(j + 1));
        j += 1;
    }
    proof {
        if tally_view(ranked_all@).len() <= top_n {
            assert(tally_view(ranked_all@).take(n as int) =~= tally_view(ranked_all@));
        }
    }
    Ok(out)
}

} // verus!
