//! Style hints learned from a template: material and family tallies, layer
//! profiles, pillar rhythm, and the edits they suggest.

use vstd::prelude::*;
use crate::blockstate::{
    compact, compare_chars, get_prop, is_air_like_view, parse_state, props_get, props_view, seq_lt,
    BlockState, BlockStateView,
};
use crate::palette::{count_non_air, tally_add, tally_insert, tally_non_air, tally_total, tally_view, SectionBlocks};
use crate::schem::{block_family, family_of, gaps_gcd, gcd_gaps, pairs_text, top_text, LayerHint};
use crate::template::{cell_x, cell_y, cell_z, lemma_cell_coords, lemma_cell_index_bounds, Template};
use crate::text::{
    append, append_str, chars_of, copy_string, eq_str, int_text, nat_text, push_int, push_nat, string_from,
    string_of,
};

verus! {

/// How many materials a style summary lists.
pub const INFO_TOP_BLOCKS: usize = 16;

/// `a` ranks before `b`: larger count first, then smaller key.
pub open spec fn ranks_before(a: (Seq<char>, nat), b: (Seq<char>, nat)) -> bool {
    a.1 > b.1 || (a.1 == b.1 && seq_lt(a.0, b.0))
}

/// Inserting `e` into a ranked list.
pub open spec fn rank_insert(s: Seq<(Seq<char>, nat)>, e: (Seq<char>, nat)) -> Seq<(Seq<char>, nat)>
    decreases s.len(),
{
    if s.len() == 0 {
        seq![e]
    } else if ranks_before(e, s[0]) {
        seq![e] + s
    } else {
        seq![s[0]] + rank_insert(s.drop_first(), e)
    }
}

/// A tally ordered by count, largest first, ties by key.
pub open spec fn ranked(t: Seq<(Seq<char>, nat)>) -> Seq<(Seq<char>, nat)>
    decreases t.len(),
{
    if t.len() == 0 {
        seq![]
    } else {
        rank_insert(ranked(t.drop_last()), t.last())
    }
}

proof fn lemma_rank_insert_len(s: Seq<(Seq<char>, nat)>, e: (Seq<char>, nat))
    ensures
        rank_insert(s, e).len() == s.len() + 1,
    decreases s.len(),
{
    if s.len() > 0 && !ranks_before(e, s[0]) {
        lemma_rank_insert_len(s.drop_first(), e);
    }
}

pub proof fn lemma_ranked_len(t: Seq<(Seq<char>, nat)>)
    ensures
        ranked(t).len() == t.len(),
    decreases t.len(),
{
    if t.len() > 0 {
        lemma_ranked_len(t.drop_last());
        lemma_rank_insert_len(ranked(t.drop_last()), t.last());
    }
}

/// `e` placed into the ranked list `s`.
fn rank_add(s: &Vec<(String, usize)>, e: (String, usize)) -> (out: Vec<(String, usize)>)
    ensures
        tally_view(out@) == rank_insert(tally_view(s@), (e.0@, e.1 as nat)),
{
    let ghost sv = tally_view(s@);
    let ghost ev = (e.0@, e.1 as nat);
    let ec = chars_of(e.0.as_str());
    let mut out: Vec<(String, usize)> = Vec::new();
    let mut i: usize = 0;
    assert(sv.skip(0) =~= sv);
    assert(tally_view(out@) =~= Seq::<(Seq<char>, nat)>::empty());
    while i < s.len()
        invariant
            i <= s@.len(),
            sv == tally_view(s@),
            ev == (e.0@, e.1 as nat),
            ec@ == e.0@,
            tally_view(out@) + rank_insert(sv.skip(i as int), ev) == rank_insert(sv, ev),
        decreases s.len() - i,
    {
        let ghost rest = sv.skip(i as int);
        assert(rest[0] == (s@[i as int].0@, s@[i as int].1 as nat));
        assert(rest.drop_first() =~= sv.skip(i + 1));
        let sc = chars_of(s[i].0.as_str());
        let before_it = e.1 > s[i].1 || (e.1 == s[i].1 && compare_chars(&ec, &sc) == -1);
        if before_it {
            let ghost pre = tally_view(out@);
            out.push(e);
            let ghost mid = tally_view(out@);
            let ghost j0 = i;
            while i < s.len()
                invariant
                    j0 <= i <= s@.len(),
                    sv == tally_view(s@),
                    tally_view(out@) == mid + sv.subrange(j0 as int, i as int),
                decreases s.len() - i,
            {
                let ghost o = tally_view(out@);
                out.push((copy_string(&s[i].0), s[i].1));
                assert(sv[i as int] == (s@[i as int].0@, s@[i as int].1 as nat));
                assert(tally_view(out@) =~= o.push(sv[i as int]));
                assert(tally_view(out@) =~= mid + sv.subrange(j0 as int, i + 1));
                i += 1;
            }
            assert(sv.subrange(j0 as int, s@.len() as int) =~= rest);
            assert(tally_view(out@) =~= pre + rank_insert(rest, ev));
            return out;
        }
        let ghost pre = tally_view(out@);
        out.push((copy_string(&s[i].0), s[i].1));
        assert(tally_view(out@) =~= pre.push(rest[0]));
        assert(tally_view(out@) + rank_insert(sv.skip(i + 1), ev) =~= pre + rank_insert(rest, ev));
        i += 1;
    }
    let ghost pre = tally_view(out@);
    out.push(e);
    assert(sv.skip(i as int) =~= Seq::<(Seq<char>, nat)>::empty());
    assert(tally_view(out@) =~= pre + rank_insert(sv.skip(i as int), ev));
    out
}

/// The entries of a tally, largest count first, ties by key.
pub fn rank_pairs(t: &Vec<(String, usize)>) -> (out: Vec<(String, usize)>)
    ensures
        tally_view(out@) == ranked(tally_view(t@)),
{
    let mut out: Vec<(String, usize)> = Vec::new();
    let mut i: usize = 0;
    assert(tally_view(t@).take(0) =~= Seq::<(Seq<char>, nat)>::empty());
    while i < t.len()
        invariant
            i <= t@.len(),
            tally_view(out@) == ranked(tally_view(t@).take(i as int)),
        decreases t.len() - i,
    {
        let ghost tk = tally_view(t@).take(i + 1);
        assert(tk.drop_last() =~= tally_view(t@).take(i as int));
        assert(tk.last() == (t@[i as int].0@, t@[i as int].1 as nat));
        out = rank_add(&out, (copy_string(&t[i].0), t[i].1));
        i += 1;
    }
    assert(tally_view(t@).take(t@.len() as int) =~= tally_view(t@));
    out
}

/// Inserting `v` into a strictly increasing list, once.
pub open spec fn sorted_insert(s: Seq<u32>, v: u32) -> Seq<u32>
    decreases s.len(),
{
    if s.len() == 0 {
        seq![v]
    } else if s[0] == v {
        s
    } else if v < s[0] {
        seq![v] + s
    } else {
        seq![s[0]] + sorted_insert(s.drop_first(), v)
    }
}

/// The distinct values of `v` in increasing order.
pub open spec fn sorted_distinct(v: Seq<u32>) -> Seq<u32>
    decreases v.len(),
{
    if v.len() == 0 {
        seq![]
    } else {
        sorted_insert(sorted_distinct(v.drop_last()), v.last())
    }
}

fn insert_sorted(s: &Vec<u32>, v: u32) -> (out: Vec<u32>)
    ensures
        out@ == sorted_insert(s@, v),
{
    let mut out: Vec<u32> = Vec::new();
    let mut i: usize = 0;
    assert(s@.skip(0) =~= s@);
    while i < s.len()
        invariant
            i <= s@.len(),
            out@ + sorted_insert(s@.skip(i as int), v) == sorted_insert(s@, v),
        decreases s.len() - i,
    {
        let ghost rest = s@.skip(i as int);
        assert(rest[0] == s@[i as int]);
        assert(rest.drop_first() =~= s@.skip(i + 1));
        if s[i] == v || v < s[i] {
            let ghost pre = out@;
            if v < s[i] {
                out.push(v);
            }
            let ghost mid = out@;
            let ghost j0 = i;
            while i < s.len()
                invariant
                    j0 <= i <= s@.len(),
                    out@ == mid + s@.subrange(j0 as int, i as int),
                decreases s.len() - i,
            {
                out.push(s[i]);
                assert(out@ =~= mid + s@.subrange(j0 as int, i + 1));
                i += 1;
            }
            assert(s@.subrange(j0 as int, s@.len() as int) =~= rest);
            assert(out@ =~= pre + sorted_insert(rest, v));
            return out;
        }
        let ghost pre = out@;
        out.push(s[i]);
        assert(out@ + sorted_insert(s@.skip(i + 1), v) =~= pre + sorted_insert(rest, v));
        i += 1;
    }
    let ghost pre = out@;
    out.push(v);
    assert(s@.skip(i as int) =~= Seq::<u32>::empty());
    assert(out@ =~= pre + sorted_insert(s@.skip(i as int), v));
    out
}

/// The gcd of the gaps of a sorted distinct list, as `gcd_gaps` gives it.
pub open spec fn gaps_spacing(s: Seq<u32>) -> Option<u32> {
    if s.len() < 2 || gaps_gcd(s, (s.len() - 1) as nat) == 0 {
        None
    } else {
        Some(gaps_gcd(s, (s.len() - 1) as nat) as u32)
    }
}

/// The pillar rhythm of a set of column positions.
pub open spec fn spacing_of(points: Seq<(u32, u32)>) -> Option<(u32, u32)> {
    let xs = sorted_distinct(points.map_values(|p: (u32, u32)| p.0));
    let zs = sorted_distinct(points.map_values(|p: (u32, u32)| p.1));
    if points.len() < 4 {
        None
    } else {
        match (gaps_spacing(xs), gaps_spacing(zs)) {
            (Some(sx), Some(sz)) => if sx < 2 && sz < 2 {
                None
            } else {
                Some((if sx < 1 { 1 } else { sx }, if sz < 1 { 1 } else { sz }))
            },
            _ => None,
        }
    }
}

/// Spacing of pillar positions along x and z: the gcd of the gaps between
/// their distinct coordinates, when there are at least four points and one
/// spacing is at least 2.
pub fn detect_spacing(points: &[(u32, u32)]) -> (r: Option<(u32, u32)>)
    ensures
        r == spacing_of(points@),
{
    if points.len() < 4 {
        return None;
    }
    let ghost px = points@.map_values(|p: (u32, u32)| p.0);
    let ghost pz = points@.map_values(|p: (u32, u32)| p.1);
    let mut xs: Vec<u32> = Vec::new();
    let mut zs: Vec<u32> = Vec::new();
    let mut i: usize = 0;
    assert(px.take(0) =~= Seq::<u32>::empty());
    assert(pz.take(0) =~= Seq::<u32>::empty());
    while i < points.len()
        invariant
            i <= points@.len(),
            px == points@.map_values(|p: (u32, u32)| p.0),
            pz == points@.map_values(|p: (u32, u32)| p.1),
            xs@ == sorted_distinct(px.take(i as int)),
            zs@ == sorted_distinct(pz.take(i as int)),
        decreases points.len() - i,
    {
        assert(px.take(i + 1).drop_last() =~= px.take(i as int));
        assert(pz.take(i + 1).drop_last() =~= pz.take(i as int));
        xs = insert_sorted(&xs, points[i].0);
        zs = insert_sorted(&zs, points[i].1);
        i += 1;
    }
    assert(px.take(points@.len() as int) =~= px);
    assert(pz.take(points@.len() as int) =~= pz);
    let sx = match gcd_gaps(&xs) {
        Some(v) => v,
        None => {
            return None;
        },
    };
    let sz = match gcd_gaps(&zs) {
        Some(v) => v,
        None => {
            return None;
        },
    };
    if sx < 2 && sz < 2 {
        return None;
    }
    Some((if sx < 1 { 1 } else { sx }, if sz < 1 { 1 } else { sz }))
}

/// The count of `k` in a tally, 0 when absent.
pub open spec fn tally_get(t: Seq<(Seq<char>, nat)>, k: Seq<char>) -> nat
    decreases t.len(),
{
    if t.len() == 0 {
        0
    } else if t[0].0 == k {
        t[0].1
    } else {
        tally_get(t.drop_first(), k)
    }
}

/// The entry with the largest count, the last one among equals (as
/// `Iterator::max_by_key` picks it).
pub open spec fn max_last(t: Seq<(Seq<char>, nat)>) -> Option<(Seq<char>, nat)>
    decreases t.len(),
{
    if t.len() == 0 {
        None
    } else {
        match max_last(t.drop_last()) {
            None => Some(t.last()),
            Some(b) => if t.last().1 >= b.1 {
                Some(t.last())
            } else {
                Some(b)
            },
        }
    }
}

/// Solid cells of the layers `lo..hi`.
pub open spec fn solid_sum(layers: Seq<LayerHint>, lo: int, hi: int) -> nat
    decreases hi - lo,
{
    if hi <= lo {
        0
    } else {
        solid_sum(layers, lo, hi - 1) + layers[hi - 1].solid as nat
    }
}

/// The key of the most common entry, or `default`.
pub open spec fn dominant_key(t: Seq<(Seq<char>, nat)>, default: Seq<char>) -> Seq<char> {
    match max_last(t) {
        Some(b) => b.0,
        None => default,
    }
}

/// The edits a style summary suggests, in order.
pub open spec fn suggestions(
    families: Seq<(Seq<char>, nat)>,
    stairs_facing: Seq<(Seq<char>, nat)>,
    layers: Seq<LayerHint>,
    pillar: Option<(u32, u32)>,
    height: u32,
) -> Seq<Seq<char>> {
    let stairs = tally_get(families, "stairs"@);
    let slabs = tally_get(families, "slab"@);
    let logs = tally_get(families, "log"@) + tally_get(families, "pillar"@);
    let masonry = tally_get(families, "masonry"@);
    let planks = tally_get(families, "planks"@);
    let a: Seq<Seq<char>> = match pillar {
        Some((sx, sz)) => seq![
            "edit grid/colonnade --spacing-x "@ + nat_text(sx as nat) + " --spacing-z "@ + nat_text(
                sz as nat,
            ) + " (pillar rhythm)"@,
        ],
        None => if logs > 8 {
            seq!["edit grid/colonnade (logs/pillars present; probe spacing manually)"@]
        } else {
            seq![]
        },
    };
    let b: Seq<Seq<char>> = if stairs > 0 && slabs > 0 {
        seq![
            "edit roof-rows --stairs … --stairs-facing "@ + dominant_key(stairs_facing, "north"@)
                + " (stairs+slabs)"@,
        ]
    } else if stairs > 0 {
        seq![
            "edit stairs --facing "@ + dominant_key(stairs_facing, "east"@)
                + " (dominant stair facing)"@,
        ]
    } else {
        seq![]
    };
    let c: Seq<Seq<char>> = if masonry > 0 || planks > 0 {
        seq!["edit walls / fill / outline for shell; hollow for interiors"@]
    } else {
        seq![]
    };
    let start = (height * 2 / 3) as int;
    let top = solid_sum(layers, start, layers.len() as int);
    let bot = solid_sum(layers, 0, start);
    let d: Seq<Seq<char>> = if height >= 3 && start <= layers.len() && top > 0 && bot > 0 && top
        * 2 > bot {
        seq!["inspect layers: upper third denser — treat as roof/cornice band"@]
    } else {
        seq![]
    };
    a + b + c + d + seq!["schem import for exact paste; or rebuild with fill/grid/roof-rows/stairs"@]
}

pub open spec fn string_views(v: Seq<String>) -> Seq<Seq<char>> {
    v.map_values(|s: String| s@)
}

fn tally_lookup(t: &Vec<(String, usize)>, key: &str) -> (r: usize)
    ensures
        r == tally_get(tally_view(t@), key@),
{
    let mut i: usize = 0;
    assert(tally_view(t@).skip(0) =~= tally_view(t@));
    while i < t.len()
        invariant
            i <= t@.len(),
            tally_get(tally_view(t@), key@) == tally_get(tally_view(t@).skip(i as int), key@),
        decreases t.len() - i,
    {
        let ghost rest = tally_view(t@).skip(i as int);
        assert(rest[0] == (t@[i as int].0@, t@[i as int].1 as nat));
        assert(rest.drop_first() =~= tally_view(t@).skip(i + 1));
        if eq_str(&chars_of(t[i].0.as_str()), key) {
            return t[i].1;
        }
        i += 1;
    }
    0
}

fn dominant_of(t: &Vec<(String, usize)>, default: &str) -> (r: Vec<char>)
    ensures
        r@ == dominant_key(tally_view(t@), default@),
{
    let mut best: Option<usize> = None;
    let mut i: usize = 0;
    assert(tally_view(t@).take(0) =~= Seq::<(Seq<char>, nat)>::empty());
    while i < t.len()
        invariant
            i <= t@.len(),
            match best {
                None => max_last(tally_view(t@).take(i as int)) is None,
                Some(j) => j < i && max_last(tally_view(t@).take(i as int)) == Some(
                    tally_view(t@)[j as int],
                ),
            },
        decreases t.len() - i,
    {
        assert(tally_view(t@).take(i + 1).drop_last() =~= tally_view(t@).take(i as int));
        best = match best {
            None => Some(i),
            Some(j) => if t[i].1 >= t[j].1 {
                Some(i)
            } else {
                Some(j)
            },
        };
        i += 1;
    }
    assert(tally_view(t@).take(t@.len() as int) =~= tally_view(t@));
    match best {
        Some(j) => chars_of(t[j].0.as_str()),
        None => chars_of(default),
    }
}

fn layer_solid_sum(layers: &[LayerHint], lo: usize, hi: usize) -> (r: u128)
    requires
        lo <= hi <= layers@.len(),
        forall|j: int| 0 <= j < layers@.len() ==> (#[trigger] layers@[j]).solid <= 0x1_0000_0000,
        layers@.len() <= 0x1_0000_0000,
    ensures
        r == solid_sum(layers@, lo as int, hi as int),
        r <= (hi - lo) * 0x1_0000_0000,
{
    let mut total: u128 = 0;
    let mut i: usize = lo;
    while i < hi
        invariant
            lo <= i <= hi <= layers@.len(),
            forall|j: int| 0 <= j < layers@.len() ==> (#[trigger] layers@[j]).solid <= 0x1_0000_0000,
            layers@.len() <= 0x1_0000_0000,
            total == solid_sum(layers@, lo as int, i as int),
            total <= (i - lo) * 0x1_0000_0000,
        decreases hi - i,
    {
        total = total + layers[i].solid as u128;
        i += 1;
    }
    total
}

/// The edits suggested by a style summary: the pillar rhythm (or a hint to
/// probe it), stairs and roof rows by the dominant stair facing, shell
/// operations for masonry or planks, a roof band when the upper third is
/// dense, and an import or rebuild.
pub fn suggest_ops(
    families: &Vec<(String, usize)>,
    stairs_facing: &Vec<(String, usize)>,
    layers: &[LayerHint],
    pillar_spacing: Option<(u32, u32)>,
    height: u32,
) -> (r: Vec<String>)
    requires
        forall|j: int| 0 <= j < layers@.len() ==> (#[trigger] layers@[j]).solid <= u32::MAX,
        layers@.len() <= u32::MAX,
    ensures
        string_views(r@) == suggestions(
            tally_view(families@),
            tally_view(stairs_facing@),
            layers@,
            pillar_spacing,
            height,
        ),
{
    let mut out: Vec<String> = Vec::new();
    let stairs = tally_lookup(families, "stairs");
    let slabs = tally_lookup(families, "slab");
    let logs_a = tally_lookup(families, "log");
    let logs_b = tally_lookup(families, "pillar");
    let masonry = tally_lookup(families, "masonry");
    let planks = tally_lookup(families, "planks");
    match pillar_spacing {
        Some((sx, sz)) => {
            let mut m = chars_of("edit grid/colonnade --spacing-x ");
            push_nat(&mut m, sx as u64);
            append_str(&mut m, " --spacing-z ");
            push_nat(&mut m, sz as u64);
            append_str(&mut m, " (pillar rhythm)");
            out.push(string_of(&m));
        },
        None => {
            if logs_a as u128 + logs_b as u128 > 8 {
                out.push(string_from("edit grid/colonnade (logs/pillars present; probe spacing manually)"));
            }
        },
    }
    let ghost after_a = string_views(out@);
    if stairs > 0 && slabs > 0 {
        let mut m = chars_of("edit roof-rows --stairs … --stairs-facing ");
        let f = dominant_of(stairs_facing, "north");
        append(&mut m, &f);
        append_str(&mut m, " (stairs+slabs)");
        out.push(string_of(&m));
    } else if stairs > 0 {
        let mut m = chars_of("edit stairs --facing ");
        let f = dominant_of(stairs_facing, "east");
        append(&mut m, &f);
        append_str(&mut m, " (dominant stair facing)");
        out.push(string_of(&m));
    }
    if masonry > 0 || planks > 0 {
        out.push(string_from("edit walls / fill / outline for shell; hollow for interiors"));
    }
    if height >= 3 {
        let start = (height as u64 * 2 / 3) as usize;
        if start <= layers.len() {
            let top = layer_solid_sum(layers, start, layers.len());
            let bot = layer_solid_sum(layers, 0, start);
            if top > 0 && bot > 0 && top * 2 > bot {
                out.push(string_from("inspect layers: upper third denser — treat as roof/cornice band"));
            }
        }
    }
    out.push(string_from("schem import for exact paste; or rebuild with fill/grid/roof-rows/stairs"));
    let ghost fam = tally_view(families@);
    let ghost sfv = tally_view(stairs_facing@);
    assert(string_views(out@) =~= suggestions(fam, sfv, layers@, pillar_spacing, height));
    out
}

/// The palette entry a template cell names: index 0 where `blocks` ends,
/// `minecraft:air` where the palette does.
pub open spec fn cell_name(t: Template, i: int) -> Seq<char> {
    let id: int = if 0 <= i < t.blocks@.len() {
        t.blocks@[i] as int
    } else {
        0
    };
    if id < t.palette@.len() {
        t.palette@[id]@
    } else {
        "minecraft:air"@
    }
}

/// The block state of a template cell; an entry that does not parse counts
/// as air.
pub open spec fn cell_state(t: Template, i: int) -> BlockStateView {
    match parse_state(cell_name(t, i)) {
        Ok(b) => b,
        Err(_) => BlockStateView { name: "minecraft:air"@, props: seq![] },
    }
}

pub open spec fn tally_opt(t: Seq<(Seq<char>, nat)>, k: Option<Seq<char>>) -> Seq<(Seq<char>, nat)> {
    match k {
        Some(k) => tally_insert(t, k),
        None => t,
    }
}

/// A property of the blocks of one family.
pub open spec fn family_prop(b: BlockStateView, family: Seq<char>, key: Seq<char>) -> Option<Seq<char>> {
    if family_of(b.name) == family {
        props_get(b.props, key)
    } else {
        None
    }
}

/// Whether a cell is sampled for the pillar rhythm: a log or pillar on the
/// middle layer (or the bottom one of a box at most two high).
pub open spec fn pillar_sample(b: BlockStateView, y: int, dy: int) -> bool {
    (family_of(b.name) == "log"@ || family_of(b.name) == "pillar"@) && (y == dy / 2 || (dy <= 2
        && y == 0))
}

/// Tallies over all cells so far.
pub struct HintsTally {
    pub materials: Seq<(Seq<char>, nat)>,
    pub families: Seq<(Seq<char>, nat)>,
    pub stairs_facing: Seq<(Seq<char>, nat)>,
    pub stairs_half: Seq<(Seq<char>, nat)>,
    pub slab_type: Seq<(Seq<char>, nat)>,
    pub solid: nat,
    pub pillars: Seq<(u32, u32)>,
}

/// The tallies over the first `n` cells of a template, in y, z, x order.
pub open spec fn hints_upto(t: Template, n: nat) -> HintsTally
    decreases n,
{
    if n == 0 {
        HintsTally {
            materials: seq![],
            families: seq![],
            stairs_facing: seq![],
            stairs_half: seq![],
            slab_type: seq![],
            solid: 0,
            pillars: seq![],
        }
    } else {
        let a = hints_upto(t, (n - 1) as nat);
        let i = n - 1;
        let b = cell_state(t, i);
        let (dx, dy, dz) = t.dims();
        if is_air_like_view(b) {
            a
        } else {
            HintsTally {
                materials: tally_insert(a.materials, compact(b)),
                families: tally_insert(a.families, family_of(b.name)),
                stairs_facing: tally_opt(a.stairs_facing, family_prop(b, "stairs"@, "facing"@)),
                stairs_half: tally_opt(a.stairs_half, family_prop(b, "stairs"@, "half"@)),
                slab_type: tally_opt(a.slab_type, family_prop(b, "slab"@, "type"@)),
                solid: a.solid + 1,
                pillars: if pillar_sample(b, cell_y(dx, dz, i), dy) {
                    a.pillars.push((cell_x(dx, dz, i) as u32, cell_z(dx, dz, i) as u32))
                } else {
                    a.pillars
                },
            }
        }
    }
}

/// Material tally, solid and air counts of the cells `lo..lo + k`.
pub open spec fn layer_upto(t: Template, lo: int, k: nat) -> (Seq<(Seq<char>, nat)>, nat, nat)
    decreases k,
{
    if k == 0 {
        (seq![], 0, 0)
    } else {
        let (m, s, a) = layer_upto(t, lo, (k - 1) as nat);
        let b = cell_state(t, lo + k - 1);
        if is_air_like_view(b) {
            (m, s, a + 1)
        } else {
            (tally_insert(m, compact(b)), s + 1, a)
        }
    }
}

/// The profile of layer `y` of a template `dx` wide and `dz` deep.
pub open spec fn layer_hint_of(t: Template, y: int, dx: int, dz: int, h: LayerHint) -> bool {
    let (m, s, a) = layer_upto(t, y * dz * dx, (dz * dx) as nat);
    &&& h.y == y
    &&& h.solid == s
    &&& h.air == a
    &&& match h.dominant {
        None => m.len() == 0,
        Some(d) => m.len() > 0 && (d.0@, d.1 as nat) == ranked(m)[0],
    }
}

proof fn lemma_tally_opt_total(t: Seq<(Seq<char>, nat)>, k: Option<Seq<char>>)
    ensures
        tally_total(tally_opt(t, k)) <= tally_total(t) + 1,
{
    if let Some(k) = k {
        crate::palette::lemma_tally_insert_total(t, k);
    }
}

proof fn lemma_hints_bounds(t: Template, n: nat)
    ensures
        ({
            let a = hints_upto(t, n);
            &&& a.solid <= n
            &&& tally_total(a.materials) <= n
            &&& tally_total(a.families) <= n
            &&& tally_total(a.stairs_facing) <= n
            &&& tally_total(a.stairs_half) <= n
            &&& tally_total(a.slab_type) <= n
            &&& a.pillars.len() <= n
        }),
    decreases n,
{
    if n > 0 {
        lemma_hints_bounds(t, (n - 1) as nat);
        let a = hints_upto(t, (n - 1) as nat);
        let b = cell_state(t, n - 1);
        if !is_air_like_view(b) {
            crate::palette::lemma_tally_insert_total(a.materials, compact(b));
            crate::palette::lemma_tally_insert_total(a.families, family_of(b.name));
            lemma_tally_opt_total(a.stairs_facing, family_prop(b, "stairs"@, "facing"@));
            lemma_tally_opt_total(a.stairs_half, family_prop(b, "stairs"@, "half"@));
            lemma_tally_opt_total(a.slab_type, family_prop(b, "slab"@, "type"@));
        }
    }
}

proof fn lemma_layer_bounds(t: Template, lo: int, k: nat)
    ensures
        ({
            let (m, s, a) = layer_upto(t, lo, k);
            &&& s + a == k
            &&& tally_total(m) == s
        }),
    decreases k,
{
    if k > 0 {
        lemma_layer_bounds(t, lo, (k - 1) as nat);
        let (m, s, a) = layer_upto(t, lo, (k - 1) as nat);
        let b = cell_state(t, lo + k - 1);
        if !is_air_like_view(b) {
            crate::palette::lemma_tally_insert_total(m, compact(b));
        }
    }
}

/// The block state of cell `i` of a template.
fn cell_state_at(t: &Template, i: usize) -> (r: BlockState)
    ensures
        r@ == cell_state(*t, i as int),
{
    let id: u16 = if i < t.blocks.len() {
        t.blocks[i]
    } else {
        0
    };
    let parsed = if (id as usize) < t.palette.len() {
        BlockState::parse(t.palette[id as usize].as_str())
    } else {
        BlockState::parse("minecraft:air")
    };
    match parsed {
        Ok(b) => b,
        Err(_) => {
            let a = BlockState::air();
            assert(a@ =~= (BlockStateView { name: "minecraft:air"@, props: seq![] }));
            a
        },
    }
}

fn tally_some(t: Vec<(String, usize)>, k: Option<&String>) -> (out: Vec<(String, usize)>)
    requires
        tally_total(tally_view(t@)) < usize::MAX,
    ensures
        tally_view(out@) == tally_opt(
            tally_view(t@),
            match k {
                Some(s) => Some(s@),
                None => None,
            },
        ),
{
    match k {
        Some(s) => tally_add(&t, copy_string(s)),
        None => t,
    }
}

/// A style summary of a template. The share of solid cells is
/// `solid_count / volume`.
#[derive(Clone, Debug)]
pub struct StyleHints {
    pub materials_top: Vec<(String, usize)>,
    pub families: Vec<(String, usize)>,
    pub stairs_facing: Vec<(String, usize)>,
    pub stairs_half: Vec<(String, usize)>,
    pub slab_type: Vec<(String, usize)>,
    pub layers: Vec<LayerHint>,
    pub solid_count: usize,
    pub volume: usize,
    pub pillar_spacing_hint: Option<(u32, u32)>,
    pub suggested_ops: Vec<String>,
}

pub open spec fn top_count(n: nat) -> int {
    if n < 16 {
        n as int
    } else {
        16
    }
}

/// Learn the style of a template: the most used materials, block families,
/// stair facings and halves, slab types, a profile of each layer, the
/// rhythm of its pillars, and the edits that would rebuild it.
pub fn style_hints_from_template(tpl: &Template) -> (h: StyleHints)
    requires
        tpl.dims().0 * tpl.dims().1 * tpl.dims().2 <= u32::MAX,
    ensures
        ({
            let (dx, dy, dz) = tpl.dims();
            let n = (dx * dy * dz) as nat;
            let a = hints_upto(*tpl, n);
            &&& h.volume == n
            &&& h.solid_count == a.solid
            &&& tally_view(h.materials_top@) == ranked(a.materials).take(top_count(a.materials.len()))
            &&& tally_view(h.families@) == a.families
            &&& tally_view(h.stairs_facing@) == a.stairs_facing
            &&& tally_view(h.stairs_half@) == a.stairs_half
            &&& tally_view(h.slab_type@) == a.slab_type
            &&& h.layers@.len() == dy
            &&& forall|y: int| 0 <= y < dy ==> layer_hint_of(*tpl, y, dx, dz, #[trigger] h.layers@[y])
            &&& h.pillar_spacing_hint == spacing_of(a.pillars)
            &&& string_views(h.suggested_ops@) == suggestions(
                a.families,
                a.stairs_facing,
                h.layers@,
                h.pillar_spacing_hint,
                dy as u32,
            )
        }),
{
    let dx = tpl.size[0];
    let dy = tpl.size[1];
    let dz = tpl.size[2];
    let ghost (gx, gy, gz) = tpl.dims();
    let ghost t = *tpl;
    let mut materials: Vec<(String, usize)> = Vec::new();
    let mut families: Vec<(String, usize)> = Vec::new();
    let mut facing: Vec<(String, usize)> = Vec::new();
    let mut half: Vec<(String, usize)> = Vec::new();
    let mut slab: Vec<(String, usize)> = Vec::new();
    let mut solid_n: usize = 0;
    let mut pillar_xy: Vec<(u32, u32)> = Vec::new();
    let mut layers: Vec<LayerHint> = Vec::new();
    let mut i: usize = 0;
    let mut y: u32 = 0;
    assert(materials@ =~= Seq::<(String, usize)>::empty());
    while y < dy
        invariant
            y <= dy,
            t == *tpl,
            t.dims() == (gx, gy, gz),
            (gx, gy, gz) == (dx as int, dy as int, dz as int),
            gx * gy * gz <= u32::MAX,
            i == y * gz * gx,
            ({
                let a = hints_upto(t, i as nat);
                &&& tally_view(materials@) == a.materials
                &&& tally_view(families@) == a.families
                &&& tally_view(facing@) == a.stairs_facing
                &&& tally_view(half@) == a.stairs_half
                &&& tally_view(slab@) == a.slab_type
                &&& solid_n == a.solid
                &&& pillar_xy@ == a.pillars
            }),
            layers@.len() == y,
            forall|k: int| 0 <= k < y ==> layer_hint_of(t, k, gx, gz, #[trigger] layers@[k]),
            forall|k: int| 0 <= k < y ==> (#[trigger] layers@[k]).solid <= u32::MAX,
        decreases dy - y,
    {
        let mut layer_counts: Vec<(String, usize)> = Vec::new();
        let mut solid: usize = 0;
        let mut air: usize = 0;
        let ghost lo = i as int;
        let mut z: u32 = 0;
        assert(y * gz * gx + gz * gx <= gx * gy * gz) by (nonlinear_arith)
            requires
                y < gy,
                gx >= 0,
                gz >= 0,
        ;
        while z < dz
            invariant
                y < dy,
                z <= dz,
                t == *tpl,
                t.dims() == (gx, gy, gz),
                lo <= i,
                (gx, gy, gz) == (dx as int, dy as int, dz as int),
                gx * gy * gz <= u32::MAX,
                lo == y * gz * gx,
                y * gz * gx + gz * gx <= gx * gy * gz,
                i == (y * gz + z) * gx,
                ({
                    let a = hints_upto(t, i as nat);
                    &&& tally_view(materials@) == a.materials
                    &&& tally_view(families@) == a.families
                    &&& tally_view(facing@) == a.stairs_facing
                    &&& tally_view(half@) == a.stairs_half
                    &&& tally_view(slab@) == a.slab_type
                    &&& solid_n == a.solid
                    &&& pillar_xy@ == a.pillars
                }),
                ({
                    let (m, sc, ac) = layer_upto(t, lo, (i - lo) as nat);
                    &&& tally_view(layer_counts@) == m
                    &&& solid == sc
                    &&& air == ac
                }),
            decreases dz - z,
        {
            let mut x: u32 = 0;
            assert((y * gz + z) * gx + gx <= y * gz * gx + gz * gx) by (nonlinear_arith)
                requires
                    z < gz,
                    gx >= 0,
            ;
            while x < dx
                invariant
                    y < dy,
                    z < dz,
                    x <= dx,
                    t == *tpl,
                    t.dims() == (gx, gy, gz),
                    lo <= i,
                    (gx, gy, gz) == (dx as int, dy as int, dz as int),
                    gx * gy * gz <= u32::MAX,
                    lo == y * gz * gx,
                    y * gz * gx + gz * gx <= gx * gy * gz,
                    (y * gz + z) * gx + gx <= y * gz * gx + gz * gx,
                    i == (y * gz + z) * gx + x,
                    ({
                        let a = hints_upto(t, i as nat);
                        &&& tally_view(materials@) == a.materials
                        &&& tally_view(families@) == a.families
                        &&& tally_view(facing@) == a.stairs_facing
                        &&& tally_view(half@) == a.stairs_half
                        &&& tally_view(slab@) == a.slab_type
                        &&& solid_n == a.solid
                        &&& pillar_xy@ == a.pillars
                    }),
                    ({
                        let (m, sc, ac) = layer_upto(t, lo, (i - lo) as nat);
                        &&& tally_view(layer_counts@) == m
                        &&& solid == sc
                        &&& air == ac
                    }),
                decreases dx - x,
            {
                proof {
                    lemma_cell_coords(gx, gy, gz, x as int, y as int, z as int);
                    lemma_hints_bounds(t, i as nat);
                    lemma_layer_bounds(t, lo, (i - lo) as nat);
                }
                let b = cell_state_at(tpl, i);
                let ghost a0 = hints_upto(t, i as nat);
                let ghost l0 = layer_upto(t, lo, (i - lo) as nat);
                assert(solid + air == i - lo);
                assert(i + 1 <= gx * gy * gz);
                if b.is_air_like() {
                    air += 1;
                } else {
                    solid += 1;
                    solid_n += 1;
                    let key = b.to_compact();
                    materials = tally_add(&materials, copy_string(&key));
                    layer_counts = tally_add(&layer_counts, key);
                    let fam = block_family(b.name().as_str());
                    let fc = chars_of(fam);
                    families = tally_add(&families, string_from(fam));
                    let is_stairs = eq_str(&fc, "stairs");
                    let is_slab = eq_str(&fc, "slab");
                    facing = tally_some(
                        facing,
                        if is_stairs {
                            get_prop(b.properties(), "facing")
                        } else {
                            None
                        },
                    );
                    half = tally_some(
                        half,
                        if is_stairs {
                            get_prop(b.properties(), "half")
                        } else {
                            None
                        },
                    );
                    slab = tally_some(
                        slab,
                        if is_slab {
                            get_prop(b.properties(), "type")
                        } else {
                            None
                        },
                    );
                    if (eq_str(&fc, "log") || eq_str(&fc, "pillar")) && (y == dy / 2 || (dy <= 2
                        && y == 0)) {
                        pillar_xy.push((x, z));
                    }
                }
                proof {
                    let a1 = hints_upto(t, (i + 1) as nat);
                    assert(cell_state(t, i as int) == b@);
                    assert(cell_y(gx, gz, i as int) == y as int);
                    assert(a1.materials == tally_view(materials@));
                    assert(a1.families == tally_view(families@));
                    assert(a1.stairs_facing == tally_view(facing@));
                    assert(a1.stairs_half == tally_view(half@));
                    assert(a1.slab_type == tally_view(slab@));
                    assert(a1.pillars == pillar_xy@);
                }
                i += 1;
                x += 1;
            }
            assert(i == (y * gz + z + 1) * gx) by (nonlinear_arith)
                requires
                    i == (y * gz + z) * gx + x,
                    x == gx,
            ;
            z += 1;
        }
        assert(i - lo == gz * gx) by (nonlinear_arith)
            requires
                i == (y * gz + z) * gx,
                z == gz,
                lo == y * gz * gx,
        ;
        let ranked_layer = rank_pairs(&layer_counts);
        proof {
            lemma_ranked_len(tally_view(layer_counts@));
            lemma_layer_bounds(t, lo, (i - lo) as nat);
        }
        let dominant = if ranked_layer.len() > 0 {
            Some((copy_string(&ranked_layer[0].0), ranked_layer[0].1))
        } else {
            None
        };
        let hint = LayerHint { y, solid, air, dominant };
        assert(layer_hint_of(t, y as int, gx, gz, hint));
        layers.push(hint);
        assert(i == (y + 1) * gz * gx) by (nonlinear_arith)
            requires
                i - lo == gz * gx,
                lo == y * gz * gx,
        ;
        y += 1;
    }
    assert(i == gx * gy * gz) by (nonlinear_arith)
        requires
            i == y * gz * gx,
            y == gy,
    ;
    let ranked_all = rank_pairs(&materials);
    proof {
        lemma_ranked_len(tally_view(materials@));
    }
    let mut materials_top: Vec<(String, usize)> = Vec::new();
    let mut j: usize = 0;
    while j < ranked_all.len() && j < INFO_TOP_BLOCKS
        invariant
            j <= ranked_all@.len(),
            j <= 16,
            tally_view(materials_top@) == tally_view(ranked_all@).take(j as int),
        decreases 16 - j,
    {
        let ghost before = tally_view(materials_top@);
        materials_top.push((copy_string(&ranked_all[j].0), ranked_all[j].1));
        assert(tally_view(ranked_all@)[j as int] == (ranked_all@[j as int].0@, ranked_all@[j as int].1 as nat));
        assert(tally_view(materials_top@) =~= before.push(tally_view(ranked_all@)[j as int]));
        assert(tally_view(materials_top@) =~= tally_view(ranked_all@).take(j + 1));
        j += 1;
    }
    let pillar_spacing_hint = detect_spacing(&pillar_xy);
    let suggested_ops = suggest_ops(&families, &facing, &layers, pillar_spacing_hint, dy);
    StyleHints {
        materials_top,
        families,
        stairs_facing: facing,
        stairs_half: half,
        slab_type: slab,
        layers,
        solid_count: solid_n,
        volume: i,
        pillar_spacing_hint,
        suggested_ops,
    }
}

/// `key` followed by the pairs, or no line when there are none.
pub open spec fn pairs_line(key: Seq<char>, p: Seq<(String, usize)>) -> Seq<Seq<char>> {
    if p.len() == 0 {
        seq![]
    } else {
        seq![key + top_text(p)]
    }
}

/// The line describing one layer.
pub open spec fn layer_line(l: LayerHint) -> Seq<char> {
    "layer y="@ + nat_text(l.y as nat) + " solid="@ + nat_text(l.solid as nat) + " air="@
        + nat_text(l.air as nat) + " dominant="@ + match l.dominant {
        Some(d) => d.0@ + "="@ + nat_text(d.1 as nat),
        None => "-"@,
    }
}

/// The lines of a style summary after its solid ratio.
pub open spec fn style_lines(h: StyleHints) -> Seq<Seq<char>> {
    pairs_line("materials_top="@, h.materials_top@) + pairs_line("families="@, h.families@)
        + pairs_line("stairs_facing="@, h.stairs_facing@) + pairs_line(
        "stairs_half="@,
        h.stairs_half@,
    ) + pairs_line("slab_type="@, h.slab_type@) + match h.pillar_spacing_hint {
        Some((sx, sz)) => seq!["pillar_spacing_hint="@ + nat_text(sx as nat) + ","@ + nat_text(sz as nat)],
        None => seq![],
    } + Seq::new(h.layers@.len(), |k: int| layer_line(h.layers@[k])) + Seq::new(
        h.suggested_ops@.len(),
        |k: int| "suggest="@ + h.suggested_ops@[k]@,
    )
}

fn push_pairs_line(out: &mut Vec<String>, key: &str, p: &Vec<(String, usize)>)
    ensures
        string_views(final(out)@) == string_views(old(out)@) + pairs_line(key@, p@),
{
    if p.len() > 0 {
        let mut m = chars_of(key);
        let t = pairs_text(p);
        append(&mut m, &t);
        let ghost before = string_views(out@);
        out.push(string_of(&m));
        assert(string_views(out@) =~= before + pairs_line(key@, p@));
    } else {
        assert(string_views(out@) =~= string_views(out@) + pairs_line(key@, p@));
    }
}

impl StyleHints {
    /// The summary lines after the solid ratio: material, family, stair and
    /// slab tallies, the pillar rhythm, one line per layer, and the
    /// suggested edits.
    pub fn detail_lines(&self) -> (r: Vec<String>)
        ensures
            string_views(r@) == style_lines(*self),
    {
        let mut out: Vec<String> = Vec::new();
        push_pairs_line(&mut out, "materials_top=", &self.materials_top);
        push_pairs_line(&mut out, "families=", &self.families);
        push_pairs_line(&mut out, "stairs_facing=", &self.stairs_facing);
        push_pairs_line(&mut out, "stairs_half=", &self.stairs_half);
        push_pairs_line(&mut out, "slab_type=", &self.slab_type);
        match self.pillar_spacing_hint {
            Some((sx, sz)) => {
                let mut m = chars_of("pillar_spacing_hint=");
                push_nat(&mut m, sx as u64);
                append_str(&mut m, ",");
                push_nat(&mut m, sz as u64);
                out.push(string_of(&m));
            },
            None => {},
        }
        let ghost head = string_views(out@);
        let mut k: usize = 0;
        while k < self.layers.len()
            invariant
                k <= self.layers@.len(),
                string_views(out@) == head + Seq::new(k as nat, |j: int| layer_line(self.layers@[j])),
            decreases self.layers.len() - k,
        {
            let l = &self.layers[k];
            let mut m = chars_of("layer y=");
            push_nat(&mut m, l.y as u64);
            append_str(&mut m, " solid=");
            push_nat(&mut m, l.solid as u64);
            append_str(&mut m, " air=");
            push_nat(&mut m, l.air as u64);
            append_str(&mut m, " dominant=");
            match &l.dominant {
                Some(d) => {
                    append_str(&mut m, d.0.as_str());
                    append_str(&mut m, "=");
                    push_nat(&mut m, d.1 as u64);
                },
                None => {
                    append_str(&mut m, "-");
                },
            }
            let ghost before = string_views(out@);
            out.push(string_of(&m));
            assert(m@ =~= layer_line(self.layers@[k as int]));
            assert(string_views(out@) =~= before.push(m@));
            assert(string_views(out@) =~= head + Seq::new((k + 1) as nat, |j: int| layer_line(self.layers@[j])));
            k += 1;
        }
        let ghost mid = string_views(out@);
        let mut k: usize = 0;
        while k < self.suggested_ops.len()
            invariant
                k <= self.suggested_ops@.len(),
                string_views(out@) == mid + Seq::new(
                    k as nat,
                    |j: int| "suggest="@ + self.suggested_ops@[j]@,
                ),
            decreases self.suggested_ops.len() - k,
        {
            let mut m = chars_of("suggest=");
            append_str(&mut m, self.suggested_ops[k].as_str());
            let ghost before = string_views(out@);
            out.push(string_of(&m));
            assert(string_views(out@) =~= before.push(m@));
            assert(string_views(out@) =~= mid + Seq::new(
                (k + 1) as nat,
                |j: int| "suggest="@ + self.suggested_ops@[j]@,
            ));
            k += 1;
        }
        assert(string_views(out@) =~= style_lines(*self));
        out
    }
}

/// Adding `n` to the count of `k` in a key-ordered tally.
pub open spec fn tally_add_n(t: Seq<(Seq<char>, nat)>, k: Seq<char>, n: nat) -> Seq<(Seq<char>, nat)>
    decreases t.len(),
{
    if t.len() == 0 {
        seq![(k, n)]
    } else if t[0].0 == k {
        seq![(k, t[0].1 + n)] + t.drop_first()
    } else if seq_lt(k, t[0].0) {
        seq![(k, n)] + t
    } else {
        seq![t[0]] + tally_add_n(t.drop_first(), k, n)
    }
}

/// `t` with each entry of `u` added, in `u`'s order.
pub open spec fn tally_merge(t: Seq<(Seq<char>, nat)>, u: Seq<(Seq<char>, nat)>) -> Seq<(Seq<char>, nat)>
    decreases u.len(),
{
    if u.len() == 0 {
        t
    } else {
        tally_add_n(tally_merge(t, u.drop_last()), u.last().0, u.last().1)
    }
}

proof fn lemma_tally_add_n_total(t: Seq<(Seq<char>, nat)>, k: Seq<char>, n: nat)
    ensures
        tally_total(tally_add_n(t, k, n)) == tally_total(t) + n,
    decreases t.len(),
{
    let ins = tally_add_n(t, k, n);
    if t.len() == 0 {
        assert(ins.drop_first() =~= Seq::<(Seq<char>, nat)>::empty());
        assert(tally_total(ins) == ins[0].1 + tally_total(ins.drop_first()));
    } else {
        assert(tally_total(t) == t[0].1 + tally_total(t.drop_first()));
        assert(tally_total(ins) == ins[0].1 + tally_total(ins.drop_first()));
        if t[0].0 == k {
            assert(ins.drop_first() =~= t.drop_first());
        } else if seq_lt(k, t[0].0) {
            assert(ins.drop_first() =~= t);
        } else {
            lemma_tally_add_n_total(t.drop_first(), k, n);
            assert(ins.drop_first() =~= tally_add_n(t.drop_first(), k, n));
        }
    }
}

proof fn lemma_tally_merge_total(t: Seq<(Seq<char>, nat)>, u: Seq<(Seq<char>, nat)>)
    ensures
        tally_total(tally_merge(t, u)) == tally_total(t) + tally_total(u),
    decreases u.len(),
{
    if u.len() > 0 {
        lemma_tally_merge_total(t, u.drop_last());
        lemma_tally_add_n_total(tally_merge(t, u.drop_last()), u.last().0, u.last().1);
        lemma_tally_total_drop_last(u);
    }
}

proof fn lemma_tally_total_drop_last(u: Seq<(Seq<char>, nat)>)
    requires
        u.len() > 0,
    ensures
        tally_total(u) == tally_total(u.drop_last()) + u.last().1,
    decreases u.len(),
{
    if u.len() > 1 {
        lemma_tally_total_drop_last(u.drop_first());
        assert(u.drop_first().drop_last() =~= u.drop_last().drop_first());
        assert(u.drop_last()[0] == u[0]);
    } else {
        assert(u.drop_last() =~= Seq::<(Seq<char>, nat)>::empty());
        assert(u.drop_first() =~= Seq::<(Seq<char>, nat)>::empty());
    }
}

fn tally_add_count(t: &Vec<(String, usize)>, key: String, n: usize) -> (out: Vec<(String, usize)>)
    requires
        tally_total(tally_view(t@)) + n <= usize::MAX,
    ensures
        tally_view(out@) == tally_add_n(tally_view(t@), key@, n as nat),
{
    let kc = chars_of(key.as_str());
    let mut out: Vec<(String, usize)> = Vec::new();
    let mut i: usize = 0;
    let ghost tv = tally_view(t@);
    let ghost nn = n as nat;
    assert(tv.skip(0) =~= tv);
    assert(tally_view(out@) =~= Seq::<(Seq<char>, nat)>::empty());
    while i < t.len()
        invariant
            i <= t@.len(),
            kc@ == key@,
            tv == tally_view(t@),
            nn == n,
            tally_total(tv) + n <= usize::MAX,
            tally_view(out@) + tally_add_n(tv.skip(i as int), key@, nn) == tally_add_n(tv, key@, nn),
        decreases t.len() - i,
    {
        let ghost rest = tv.skip(i as int);
        assert(rest[0] == (t@[i as int].0@, t@[i as int].1 as nat));
        assert(rest.drop_first() =~= tv.skip(i + 1));
        let pk = chars_of(t[i].0.as_str());
        let c = compare_chars(&pk, &kc);
        if c == 0 || c == 1 {
            let ghost before = tally_view(out@);
            if c == 0 {
                proof {
                    crate::palette::lemma_tally_entry_le_total(tv, i as int);
                }
                out.push((key, t[i].1 + n));
                i += 1;
            } else {
                out.push((key, n));
            }
            let ghost mid = tally_view(out@);
            let ghost j0 = i;
            while i < t.len()
                invariant
                    j0 <= i <= t@.len(),
                    tv == tally_view(t@),
                    tally_view(out@) == mid + tv.subrange(j0 as int, i as int),
                decreases t.len() - i,
            {
                let ghost o = tally_view(out@);
                out.push((copy_string(&t[i].0), t[i].1));
                assert(tv[i as int] == (t@[i as int].0@, t@[i as int].1 as nat));
                assert(tally_view(out@) =~= o.push(tv[i as int]));
                assert(tally_view(out@) =~= mid + tv.subrange(j0 as int, i + 1));
                i += 1;
            }
            assert(tv.subrange(j0 as int, t@.len() as int) =~= (if c == 0 {
                rest.drop_first()
            } else {
                rest
            }));
            assert(tally_view(out@) =~= before + tally_add_n(rest, key@, nn));
            return out;
        }
        let ghost before = tally_view(out@);
        out.push((copy_string(&t[i].0), t[i].1));
        assert(tally_view(out@) =~= before.push(rest[0]));
        assert(tally_add_n(rest, key@, nn) == seq![rest[0]] + tally_add_n(rest.drop_first(), key@, nn));
        assert(tally_view(out@) + tally_add_n(tv.skip(i + 1), key@, nn) =~= before + tally_add_n(
            rest,
            key@,
            nn,
        ));
        i += 1;
    }
    let ghost before = tally_view(out@);
    out.push((key, n));
    assert(tv.skip(i as int) =~= Seq::<(Seq<char>, nat)>::empty());
    assert(tally_view(out@) =~= before + tally_add_n(tv.skip(i as int), key@, nn));
    out
}

/// The non-air cells of several sections: the total, and the per-state
/// counts merged section by section.
pub open spec fn sections_tally(secs: Seq<SectionBlocks>) -> (nat, Seq<(Seq<char>, nat)>)
    decreases secs.len(),
{
    if secs.len() == 0 {
        (0, seq![])
    } else {
        let (t, m) = sections_tally(secs.drop_last());
        (t + count_non_air(secs.last().cells()), tally_merge(m, tally_non_air(secs.last().cells())))
    }
}

proof fn lemma_sections_tally_total(secs: Seq<SectionBlocks>)
    ensures
        tally_total(sections_tally(secs).1) == sections_tally(secs).0,
        sections_tally(secs).0 <= 4096 * secs.len(),
    decreases secs.len(),
{
    if secs.len() > 0 {
        lemma_sections_tally_total(secs.drop_last());
        let (t, m) = sections_tally(secs.drop_last());
        lemma_tally_merge_total(m, tally_non_air(secs.last().cells()));
        crate::palette::law_counts_sum_to_total(secs.last().cells());
        crate::palette::lemma_count_non_air_le(secs.last().cells());
    }
}

/// Count the non-air blocks of a chunk's sections, in total and by state.
pub fn count_non_air_sections(sections: &Vec<SectionBlocks>) -> (r: (usize, Vec<(String, usize)>))
    requires
        forall|i: int| 0 <= i < sections@.len() ==> (#[trigger] sections@[i]).wf(),
        4096 * sections@.len() <= usize::MAX,
    ensures
        r.0 == sections_tally(sections@).0,
        tally_view(r.1@) == sections_tally(sections@).1,
{
    let mut total: usize = 0;
    let mut counts: Vec<(String, usize)> = Vec::new();
    let mut s: usize = 0;
    assert(sections@.take(0) =~= Seq::<SectionBlocks>::empty());
    assert(tally_view(counts@) =~= Seq::<(Seq<char>, nat)>::empty());
    while s < sections.len()
        invariant
            s <= sections@.len(),
            forall|i: int| 0 <= i < sections@.len() ==> (#[trigger] sections@[i]).wf(),
            4096 * sections@.len() <= usize::MAX,
            total == sections_tally(sections@.take(s as int)).0,
            tally_view(counts@) == sections_tally(sections@.take(s as int)).1,
        decreases sections.len() - s,
    {
        proof {
            lemma_sections_tally_total(sections@.take(s as int));
            assert(sections@.take(s + 1).drop_last() =~= sections@.take(s as int));
            assert(sections@.take(s + 1).last() == sections@[s as int]);
            assert(4096 * s + 4096 <= 4096 * sections@.len()) by (nonlinear_arith)
                requires
                    s < sections@.len(),
            ;
            crate::palette::lemma_count_non_air_le(sections@[s as int].cells());
        }
        let (t, c) = sections[s].non_air_counts();
        let ghost base = tally_view(counts@);
        let ghost part = tally_view(c@);
        proof {
            crate::palette::law_counts_sum_to_total(sections@[s as int].cells());
        }
        let mut j: usize = 0;
        while j < c.len()
            invariant
                j <= c@.len(),
                part == tally_view(c@),
                tally_total(part) == t,
                tally_total(base) + t <= usize::MAX,
                tally_view(counts@) == tally_merge(base, part.take(j as int)),
            decreases c.len() - j,
        {
            proof {
                lemma_tally_merge_total(base, part.take(j as int));
                assert(part.take(j + 1).drop_last() =~= part.take(j as int));
                assert(part.take(j + 1).last() == part[j as int]);
                lemma_tally_take_total(part, j as int);
                crate::palette::lemma_tally_entry_le_total(part.skip(j as int), 0);
            }
            counts = tally_add_count(&counts, copy_string(&c[j].0), c[j].1);
            j += 1;
        }
        assert(part.take(c@.len() as int) =~= part);
        total = total + t;
        s += 1;
    }
    assert(sections@.take(sections@.len() as int) =~= sections@);
    (total, counts)
}

proof fn lemma_tally_take_total(u: Seq<(Seq<char>, nat)>, j: int)
    requires
        0 <= j < u.len(),
    ensures
        tally_total(u.take(j)) + tally_total(u.skip(j)) == tally_total(u),
        u.skip(j)[0] == u[j],
    decreases u.len(),
{
    if j > 0 {
        lemma_tally_take_total(u.drop_first(), j - 1);
        assert(u.drop_first().take(j - 1) =~= u.take(j).drop_first());
        assert(u.drop_first().skip(j - 1) =~= u.skip(j));
        assert(tally_total(u.take(j)) == u.take(j)[0].1 + tally_total(u.take(j).drop_first()));
    } else {
        assert(u.take(0) =~= Seq::<(Seq<char>, nat)>::empty());
        assert(u.skip(0) =~= u);
    }
}

/// `key=count` pairs joined by single spaces.
pub open spec fn spaced_pairs(tb: Seq<(Seq<char>, nat)>) -> Seq<char>
    decreases tb.len(),
{
    if tb.len() == 0 {
        seq![]
    } else if tb.len() == 1 {
        tb[0].0 + "="@ + nat_text(tb[0].1)
    } else {
        spaced_pairs(tb.drop_last()) + " "@ + tb.last().0 + "="@ + nat_text(tb.last().1)
    }
}

/// How many states a chunk summary lists.
pub const SUMMARY_TOP_BLOCKS: usize = 8;

/// The first `n` entries of `s`, or all of them when there are fewer.
pub open spec fn first_n(s: Seq<(Seq<char>, nat)>, n: nat) -> Seq<(Seq<char>, nat)> {
    if s.len() <= n {
        s
    } else {
        s.take(n as int)
    }
}

/// The one-line summary of a chunk: its position, its non-air total and its
/// most common states.
pub open spec fn chunk_summary_text(cx: int, cz: int, total: nat, counts: Seq<(Seq<char>, nat)>) -> Seq<
    char,
> {
    "chunk="@ + int_text(cx) + ","@ + int_text(cz) + " non_air="@ + nat_text(total) + " top=["@
        + spaced_pairs(first_n(ranked(counts), SUMMARY_TOP_BLOCKS as nat)) + "]"@
}

/// Summarise the non-air blocks of the chunk at (`cx`, `cz`) whose sections
/// are `sections`.
pub fn summary_chunk(cx: i32, cz: i32, sections: &Vec<SectionBlocks>) -> (r: String)
    requires
        forall|i: int| 0 <= i < sections@.len() ==> (#[trigger] sections@[i]).wf(),
        4096 * sections@.len() <= usize::MAX,
    ensures
        r@ == chunk_summary_text(
            cx as int,
            cz as int,
            sections_tally(sections@).0,
            sections_tally(sections@).1,
        ),
{
    let (total, counts) = count_non_air_sections(sections);
    let ranked_all = rank_pairs(&counts);
    proof {
        lemma_ranked_len(tally_view(counts@));
    }
    let ghost rv = tally_view(ranked_all@);
    let ghost top = first_n(rv, SUMMARY_TOP_BLOCKS as nat);
    let mut out: Vec<char> = Vec::new();
    append_str(&mut out, "chunk=");
    push_int(&mut out, cx as i64);
    out.push(',');
    push_int(&mut out, cz as i64);
    append_str(&mut out, " non_air=");
    push_nat(&mut out, total as u64);
    append_str(&mut out, " top=[");
    let ghost head = out@;
    let n: usize = if ranked_all.len() < SUMMARY_TOP_BLOCKS {
        ranked_all.len()
    } else {
        SUMMARY_TOP_BLOCKS
    };
    assert(top.len() == n);
    let mut j: usize = 0;
    assert(top.take(0) =~= Seq::<(Seq<char>, nat)>::empty());
    while j < n
        invariant
            j <= n,
            n <= ranked_all@.len(),
            rv == tally_view(ranked_all@),
            top.len() == n,
            forall|k: int| 0 <= k < n ==> top[k] == rv[k],
            out@ == head + spaced_pairs(top.take(j as int)),
        decreases n - j,
    {
        assert(top.take(j + 1).drop_last() =~= top.take(j as int));
        assert(rv[j as int] == (ranked_all@[j as int].0@, ranked_all@[j as int].1 as nat));
        if j > 0 {
            out.push(' ');
        }
        append_str(&mut out, ranked_all[j].0.as_str());
        out.push('=');
        push_nat(&mut out, ranked_all[j].1 as u64);
        proof {
            reveal_strlit("=");
            reveal_strlit(" ");
            if j == 0 {
                assert(out@ =~= head + spaced_pairs(top.take(1)));
            } else {
                assert(out@ =~= head + spaced_pairs(top.take(j + 1)));
            }
        }
        j += 1;
    }
    assert(top.take(n as int) =~= top);
    out.push(']');
    proof {
        reveal_strlit("chunk=");
        reveal_strlit(",");
        reveal_strlit(" non_air=");
        reveal_strlit(" top=[");
        reveal_strlit("]");
    }
    let r = string_of(&out);
    assert(r@ =~= chunk_summary_text(
        cx as int,
        cz as int,
        sections_tally(sections@).0,
        sections_tally(sections@).1,
    ));
    r
}

} // verus!
