//! The root compound of a Sponge schematic read from its tag tree: the
//! WorldEdit wrapper unwrapped, classic MCEdit files refused, and the
//! summary `schem info` reports.

use vstd::prelude::*;
use crate::chunk_nbt::lemma_list_view;
use crate::nbt::{
    child, child_of, compound_get, entries_view, entry_index, int_of, lemma_entries_view, list_view, Nbt,
    NbtView,
};
use crate::text::{chars_of, copy_string, lower, lower_chars, string_from};
use crate::schem::{read_all, varints_decodable, SchemInfo, VarintsRead};
use crate::schem_template::{block_histogram, histogram_spec, palette_slots, slots_upto};
use crate::palette::tally_view;
use crate::mc_version::{name_for_data_version, ResolvedVersion};

verus! {

/// An integer tag cut to `i32`.
pub open spec fn i32_of(v: NbtView) -> Option<i32> {
    match v {
        NbtView::Int(n) => Some(n),
        NbtView::Short(n) => Some(n as i32),
        NbtView::Byte(n) => Some(n as i32),
        NbtView::Long(n) => Some(n as i32),
        _ => None,
    }
}

/// An integer tag cut to `u16`.
pub open spec fn u16_of(v: NbtView) -> Option<u16> {
    match v {
        NbtView::Short(n) => Some(n as u16),
        NbtView::Int(n) => Some(n as u16),
        NbtView::Byte(n) => Some(n as u16),
        NbtView::Long(n) => Some(n as u16),
        _ => None,
    }
}

/// The entry `k` of a compound as an `i32`.
pub open spec fn field_i32(root: NbtView, k: Seq<char>) -> Option<i32> {
    match child(Some(root), k) {
        Some(v) => i32_of(v),
        None => None,
    }
}

/// `Palette`, else `palette`.
pub open spec fn find_palette(root: Option<NbtView>) -> Option<NbtView> {
    match child(root, "Palette"@) {
        Some(p) => Some(p),
        None => child(root, "palette"@),
    }
}

/// A classic MCEdit schematic: `Materials` and a `Blocks` byte array,
/// without a Sponge palette or version.
pub open spec fn is_classic(root: NbtView) -> bool {
    &&& child(Some(root), "Materials"@) is Some
    &&& child(Some(root), "Blocks"@) matches Some(NbtView::ByteArray(_))
    &&& find_palette(Some(root)) is None
    &&& find_palette(child(Some(root), "Blocks"@)) is None
    &&& field_i32(root, "Version"@) is None
}

/// The first entry from `i` on named `Schematic` in any letter case that
/// holds a compound.
pub open spec fn any_case_schematic(es: Seq<(Seq<char>, NbtView)>, i: nat) -> Option<NbtView>
    decreases es.len() - i,
{
    if i >= es.len() {
        None
    } else if lower(es[i as int].0) == "schematic"@ && es[i as int].1 is Compound {
        Some(es[i as int].1)
    } else {
        any_case_schematic(es, i + 1)
    }
}

pub open spec fn lit_not_compound() -> Seq<char> {
    "schem root is not a compound"@
}

pub open spec fn lit_missing_schematic() -> Seq<char> {
    "schem missing Schematic compound (or Width/Version); not a Sponge .schem?"@
}

pub open spec fn lit_classic() -> Seq<char> {
    "classic MCEdit .schematic is not supported; convert to Sponge .schem (v1–v3) with WorldEdit/FAWE"@
}

/// The schematic compound of a file's tree: the root itself when it has
/// `Width`, `Version` or `Blocks`, else its `Schematic` compound (any
/// letter case as a fallback).
pub open spec fn unwrap_spec(tree: NbtView) -> Result<NbtView, Seq<char>> {
    match tree {
        NbtView::Compound(es) => if compound_get(es, "Width"@) is Some || compound_get(es, "Version"@)
            is Some || compound_get(es, "Blocks"@) is Some {
            Ok(tree)
        } else {
            match compound_get(es, "Schematic"@) {
                Some(NbtView::Compound(c)) => Ok(NbtView::Compound(c)),
                _ => match any_case_schematic(es, 0) {
                    Some(v) => Ok(v),
                    None => Err(lit_missing_schematic()),
                },
            }
        },
        _ => Err(lit_not_compound()),
    }
}

/// The schematic root of a file's tree, refusing classic MCEdit files.
pub open spec fn schem_root_spec(tree: NbtView) -> Result<NbtView, Seq<char>> {
    match unwrap_spec(tree) {
        Err(e) => Err(e),
        Ok(r) => if is_classic(r) {
            Err(lit_classic())
        } else {
            Ok(r)
        },
    }
}

fn i32_value(v: Option<&Nbt>) -> (r: Option<i32>)
    ensures
        r == match v {
            Some(m) => i32_of(m@),
            None => None,
        },
{
    match v {
        Some(Nbt::Int(n)) => Some(*n),
        Some(Nbt::Short(n)) => Some(*n as i32),
        Some(Nbt::Byte(n)) => Some(*n as i32),
        Some(Nbt::Long(n)) => Some(*n as i32),
        _ => None,
    }
}

fn u16_value(v: Option<&Nbt>) -> (r: Option<u16>)
    ensures
        r == match v {
            Some(m) => u16_of(m@),
            None => None,
        },
{
    match v {
        Some(Nbt::Short(n)) => Some(*n as u16),
        Some(Nbt::Int(n)) => Some(*n as u16),
        Some(Nbt::Byte(n)) => Some(*n as u16),
        Some(Nbt::Long(n)) => Some(*n as u16),
        _ => None,
    }
}

pub open spec fn opt_view(v: Option<&Nbt>) -> Option<NbtView> {
    match v {
        Some(m) => Some(m@),
        None => None,
    }
}

fn palette_of<'a>(root: Option<&'a Nbt>) -> (r: Option<&'a Nbt>)
    ensures
        opt_view(r) == find_palette(opt_view(root)),
{
    match child_of(root, "Palette") {
        Some(p) => Some(p),
        None => child_of(root, "palette"),
    }
}

fn classic(root: &Nbt) -> (r: bool)
    ensures
        r == is_classic(root@),
{
    let blocks = child_of(Some(root), "Blocks");
    child_of(Some(root), "Materials").is_some() && match blocks {
        Some(Nbt::ByteArray(_)) => true,
        _ => false,
    } && palette_of(Some(root)).is_none() && palette_of(blocks).is_none() && i32_value(
        child_of(Some(root), "Version"),
    ).is_none()
}

/// The schematic root of a file's tree: the WorldEdit `Schematic` wrapper
/// is unwrapped, and classic MCEdit files are refused.
#[verifier::loop_isolation(false)]
pub fn schem_root(tree: Nbt) -> (r: Result<Nbt, String>)
    ensures
        match schem_root_spec(tree@) {
            Ok(v) => r is Ok && r->Ok_0@ == v,
            Err(m) => r is Err && r->Err_0@ == m,
        },
{
    let root = match tree {
        Nbt::Compound(mut es) => {
            proof {
                lemma_entries_view(es@);
            }
            let ghost ev = entries_view(es@);
            if entry_index(&es, "Width").is_some() || entry_index(&es, "Version").is_some()
                || entry_index(&es, "Blocks").is_some() {
                Nbt::Compound(es)
            } else {
                match entry_index(&es, "Schematic") {
                    Some(j) if matches!(es[j].1, Nbt::Compound(_)) => {
                        let (_, v) = es.remove(j);
                        v
                    },
                    _ => {
                        let target = chars_of("schematic");
                        let mut i: usize = 0;
                        let mut found: Option<usize> = None;
                        while i < es.len()
                            invariant
                                i <= es@.len(),
                                ev == entries_view(es@),
                                ev.len() == es@.len(),
                                forall|m: int| 0 <= m < es@.len() ==> #[trigger] ev[m] == (es@[m].0@, es@[m].1@),
                                target@ == "schematic"@,
                                match found {
                                    Some(j) => j < es@.len() && any_case_schematic(ev, 0) == Some(ev[j as int].1),
                                    None => any_case_schematic(ev, 0) == any_case_schematic(ev, i as nat),
                                },
                            decreases es.len() - i,
                        {
                            if found.is_some() {
                                break;
                            }
                            let low = lower_chars(&chars_of(es[i].0.as_str()));
                            let is_c = match es[i].1 {
                                Nbt::Compound(_) => true,
                                _ => false,
                            };
                            if crate::text::eq_chars(&low, &target) && is_c {
                                found = Some(i);
                            }
                            i += 1;
                        }
                        match found {
                            Some(j) => {
                                let (_, v) = es.remove(j);
                                v
                            },
                            None => {
                                return Err(string_from(
                                    "schem missing Schematic compound (or Width/Version); not a Sponge .schem?",
                                ));
                            },
                        }
                    },
                }
            }
        },
        _ => return Err(string_from("schem root is not a compound")),
    };
    if classic(&root) {
        return Err(string_from(
            "classic MCEdit .schematic is not supported; convert to Sponge .schem (v1–v3) with WorldEdit/FAWE",
        ));
    }
    Ok(root)
}

/// The paste offset: `Offset` as an int array or a list, a missing part
/// reading as 0.
pub open spec fn offset_of(root: NbtView) -> Seq<i32> {
    match child(Some(root), "Offset"@) {
        Some(NbtView::IntArray(a)) => seq![
            if a.len() > 0 { a[0] } else { 0 },
            if a.len() > 1 { a[1] } else { 0 },
            if a.len() > 2 { a[2] } else { 0 },
        ],
        Some(NbtView::List(l)) => seq![
            list_i32(l, 0),
            list_i32(l, 1),
            list_i32(l, 2),
        ],
        _ => seq![0, 0, 0],
    }
}

/// Item `i` of a list as an `i32`, 0 when missing or not an integer.
pub open spec fn list_i32(l: Seq<NbtView>, i: int) -> i32 {
    if 0 <= i < l.len() {
        match i32_of(l[i]) {
            Some(n) => n,
            None => 0,
        }
    } else {
        0
    }
}

fn list_i32_at(l: &Vec<Nbt>, i: usize) -> (r: i32)
    ensures
        r == list_i32(list_view(l@), i as int),
{
    proof {
        lemma_list_view(l@);
    }
    if i < l.len() {
        match i32_value(Some(&l[i])) {
            Some(n) => n,
            None => 0,
        }
    } else {
        0
    }
}

/// The paste offset of a schematic root.
pub fn schem_offset(root: &Nbt) -> (r: [i32; 3])
    ensures
        r@ == offset_of(root@),
{
    match child_of(Some(root), "Offset") {
        Some(Nbt::IntArray(a)) => {
            let x = if a.len() > 0 { a[0] } else { 0 };
            let y = if a.len() > 1 { a[1] } else { 0 };
            let z = if a.len() > 2 { a[2] } else { 0 };
            let r = [x, y, z];
            assert(r@ =~= offset_of(root@));
            r
        },
        Some(Nbt::List(l)) => {
            let r = [list_i32_at(l, 0), list_i32_at(l, 1), list_i32_at(l, 2)];
            assert(r@ =~= offset_of(root@));
            r
        },
        _ => {
            let r = [0i32, 0, 0];
            assert(r@ =~= offset_of(root@));
            r
        },
    }
}

/// A palette index tag as Rust casts it to `usize`.
pub open spec fn index_of_tag(v: NbtView) -> Option<usize> {
    match v {
        NbtView::Int(n) => Some(n as usize),
        NbtView::Short(n) => Some(n as usize),
        NbtView::Byte(n) => Some(n as usize),
        NbtView::Long(n) => Some(n as usize),
        _ => None,
    }
}

/// The (name, index) entries of a compound palette's first `n` entries;
/// entries that are not integers are skipped.
pub open spec fn compound_palette(es: Seq<(Seq<char>, NbtView)>, n: nat) -> Seq<(Seq<char>, usize)>
    decreases n,
{
    if n == 0 {
        seq![]
    } else {
        compound_palette(es, (n - 1) as nat) + match index_of_tag(es[n - 1].1) {
            Some(i) => seq![(es[n - 1].0, i)],
            None => seq![],
        }
    }
}

/// Whether a string item equal to `s` comes after position `i`.
pub open spec fn later_text(l: Seq<NbtView>, i: int, s: Seq<char>) -> bool {
    exists|j: int| i < j < l.len() && l[j] == NbtView::Text(s)
}

/// The (name, position) entries of a list palette's first `n` items: each
/// string at its last position; other items are skipped.
pub open spec fn list_palette(l: Seq<NbtView>, n: nat) -> Seq<(Seq<char>, usize)>
    decreases n,
{
    if n == 0 {
        seq![]
    } else {
        let prev = list_palette(l, (n - 1) as nat);
        match l[n - 1] {
            NbtView::Text(s) => if later_text(l, n - 1, s) {
                prev
            } else {
                prev.push((s, (n - 1) as usize))
            },
            _ => prev,
        }
    }
}

/// A palette tag's name-to-index map.
pub open spec fn palette_map(p: NbtView) -> Option<Seq<(Seq<char>, usize)>> {
    match p {
        NbtView::Compound(es) => Some(compound_palette(es, es.len())),
        NbtView::List(l) => Some(list_palette(l, l.len())),
        _ => None,
    }
}

/// A byte or int tag cut to a byte.
pub open spec fn byte_of_tag(t: NbtView) -> u8 {
    match t {
        NbtView::Byte(b) => b as u8,
        NbtView::Int(n) => n as u8,
        _ => 0u8,
    }
}

/// The bytes of a byte array, or of a list of byte or int tags.
pub open spec fn bytes_of(v: Option<NbtView>) -> Option<Seq<u8>> {
    match v {
        Some(NbtView::ByteArray(a)) => Some(a.map_values(|b: i8| b as u8)),
        Some(NbtView::List(l)) => if forall|i: int| 0 <= i < l.len() ==> (#[trigger] l[i]) is Byte || l[i] is Int {
            Some(l.map_values(|t: NbtView| byte_of_tag(t)))
        } else {
            None
        },
        _ => None,
    }
}

/// The palette map and block data of a schematic of this version (v3
/// keeps both under `Blocks`); `None` when either is missing or the
/// palette is of another kind.
pub open spec fn block_payload(root: NbtView, version: i32) -> Option<(Seq<(Seq<char>, usize)>, Seq<u8>)> {
    if version >= 3 {
        match child(Some(root), "Blocks"@) {
            None => None,
            Some(b) => match find_palette(Some(b)) {
                None => None,
                Some(p) => {
                    let d = match bytes_of(child(Some(b), "Data"@)) {
                        Some(d) => Some(d),
                        None => bytes_of(child(Some(b), "BlockData"@)),
                    };
                    match (d, palette_map(p)) {
                        (Some(d), Some(m)) => Some((m, d)),
                        _ => None,
                    }
                },
            },
        }
    } else {
        match find_palette(Some(root)) {
            None => None,
            Some(p) => match (bytes_of(child(Some(root), "BlockData"@)), palette_map(p)) {
                (Some(d), Some(m)) => Some((m, d)),
                _ => None,
            },
        }
    }
}

pub open spec fn pmap_view(p: Seq<(String, usize)>) -> Seq<(Seq<char>, usize)> {
    p.map_values(|e: (String, usize)| (e.0@, e.1))
}

proof fn lemma_slots_by_view(p1: Seq<(String, usize)>, p2: Seq<(String, usize)>, k: nat)
    requires
        pmap_view(p1) == pmap_view(p2),
        k <= p1.len(),
    ensures
        slots_upto(p1, k) == slots_upto(p2, k),
    decreases k,
{
    assert(p1.len() == pmap_view(p1).len() && p2.len() == pmap_view(p2).len());
    if k > 0 {
        lemma_slots_by_view(p1, p2, (k - 1) as nat);
        assert(pmap_view(p1)[k - 1] == pmap_view(p2)[k - 1]);
    } else {
        assert(slots_upto(p1, 0) =~= slots_upto(p2, 0));
    }
}

/// The histogram of a palette map given by names.
pub open spec fn histogram_of(pv: Seq<(Seq<char>, usize)>, data: Seq<u8>, volume: usize) -> Result<
    Seq<(Seq<char>, nat)>,
    Seq<char>,
> {
    histogram_spec(choose|p: Seq<(String, usize)>| pmap_view(p) == pv, data, volume, 16)
}

proof fn lemma_histogram_of(p: Seq<(String, usize)>, data: Seq<u8>, volume: usize)
    ensures
        histogram_of(pmap_view(p), data, volume) == histogram_spec(p, data, volume, 16),
{
    let q = choose|q: Seq<(String, usize)>| pmap_view(q) == pmap_view(p);
    assert(pmap_view(q) == pmap_view(p));
    lemma_slots_by_view(q, p, p.len());
    assert(p.len() == pmap_view(p).len() && q.len() == pmap_view(q).len());
    assert(palette_slots(q) =~= palette_slots(p));
}

/// The number of palette entries a schematic lists.
pub open spec fn palette_count(root: NbtView, version: i32) -> nat {
    let p = if version >= 3 && child(Some(root), "Blocks"@) is Some {
        find_palette(child(Some(root), "Blocks"@))
    } else {
        find_palette(Some(root))
    };
    match p {
        Some(NbtView::Compound(m)) => m.len(),
        Some(NbtView::List(l)) => l.len(),
        _ => 0,
    }
}

/// The length of a list entry, 0 when it is missing or not a list.
pub open spec fn list_len_of(v: Option<NbtView>, k: Seq<char>) -> nat {
    match child(v, k) {
        Some(NbtView::List(l)) => l.len(),
        _ => 0,
    }
}

/// Block entities: v3 reads `Blocks` first; `BlockEntities`, else the v1
/// name `TileEntities`.
pub open spec fn block_entity_count(root: NbtView, version: i32) -> nat {
    if version >= 3 && child(Some(root), "Blocks"@) is Some {
        let b = child(Some(root), "Blocks"@);
        if list_len_of(b, "BlockEntities"@) > 0 {
            list_len_of(b, "BlockEntities"@)
        } else {
            list_len_of(b, "TileEntities"@)
        }
    } else if list_len_of(Some(root), "BlockEntities"@) > 0 {
        list_len_of(Some(root), "BlockEntities"@)
    } else {
        list_len_of(Some(root), "TileEntities"@)
    }
}

/// What `schem info` reports, with its text as sequences.
pub struct SchemInfoView {
    pub version: i32,
    pub data_version: Option<i32>,
    pub mc: Option<Seq<char>>,
    pub width: u16,
    pub height: u16,
    pub length: u16,
    pub offset: Seq<i32>,
    pub palette_n: nat,
    pub volume: nat,
    pub entities: nat,
    pub block_entities: nat,
    pub top_blocks: Seq<(Seq<char>, nat)>,
    pub path: Seq<char>,
}

impl View for SchemInfo {
    type V = SchemInfoView;

    open spec fn view(&self) -> SchemInfoView {
        SchemInfoView {
            version: self.version,
            data_version: self.data_version,
            mc: match self.mc {
                Some(m) => Some(m@),
                None => None,
            },
            width: self.width,
            height: self.height,
            length: self.length,
            offset: self.offset@,
            palette_n: self.palette_n as nat,
            volume: self.volume as nat,
            entities: self.entities as nat,
            block_entities: self.block_entities as nat,
            top_blocks: tally_view(self.top_blocks@),
            path: self.path@,
        }
    }
}

/// A schematic's version (2 when missing).
pub open spec fn version_of(root: NbtView) -> i32 {
    match field_i32(root, "Version"@) {
        Some(v) => v,
        None => 2,
    }
}

/// A dimension of a schematic as a `u16`.
pub open spec fn dim_of(root: NbtView, k: Seq<char>) -> Option<u16> {
    match child(Some(root), k) {
        Some(v) => u16_of(v),
        None => None,
    }
}

/// What `schem info` reports for a schematic root read from `path`: the
/// error for a missing dimension, an overflowing volume or bad block data.
pub open spec fn schem_info_spec(root: NbtView, path: Seq<char>) -> Result<SchemInfoView, Seq<char>> {
    let version = version_of(root);
    let dv = field_i32(root, "DataVersion"@);
    match dim_of(root, "Width"@) {
        None => Err("schem missing Width"@),
        Some(w) => match dim_of(root, "Height"@) {
            None => Err("schem missing Height"@),
            Some(h) => match dim_of(root, "Length"@) {
                None => Err("schem missing Length"@),
                Some(l) => {
                    let volume = w * h * l;
                    if w * h > usize::MAX || volume > usize::MAX {
                        Err("schem volume overflow"@)
                    } else {
                        let top = if volume == 0 {
                            Ok(seq![])
                        } else {
                            match block_payload(root, version) {
                                None => Ok(seq![]),
                                Some((m, d)) => histogram_of(m, d, volume as usize),
                            }
                        };
                        match top {
                            Err(e) => Err(e),
                            Ok(t) => Ok(
                                SchemInfoView {
                                    version,
                                    data_version: dv,
                                    mc: match dv {
                                        Some(d) => Some(name_for_data_version(d)),
                                        None => None,
                                    },
                                    width: w,
                                    height: h,
                                    length: l,
                                    offset: offset_of(root),
                                    palette_n: palette_count(root, version),
                                    volume: volume as nat,
                                    entities: list_len_of(Some(root), "Entities"@),
                                    block_entities: block_entity_count(root, version),
                                    top_blocks: t,
                                    path,
                                },
                            ),
                        }
                    }
                },
            },
        },
    }
}

/// Reading a schematic's block data would panic: a palette index that is
/// the largest `usize`, or a varint running past 32 bits.
pub open spec fn info_unreadable(root: NbtView) -> bool {
    match (dim_of(root, "Width"@), dim_of(root, "Height"@), dim_of(root, "Length"@)) {
        (Some(w), Some(h), Some(l)) => {
            let volume = w * h * l;
            0 < volume <= usize::MAX && w * h <= usize::MAX && match block_payload(root, version_of(root)) {
                Some((m, d)) => (exists|j: int| 0 <= j < m.len() && (#[trigger] m[j]).1 == usize::MAX)
                    || read_all(d, volume as nat, 0, seq![]) is ShiftOverflow,
                None => false,
            }
        },
        _ => false,
    }
}

fn index_value(v: &Nbt) -> (r: Option<usize>)
    ensures
        r == index_of_tag(v@),
{
    match v {
        Nbt::Int(n) => Some(*n as usize),
        Nbt::Short(n) => Some(*n as usize),
        Nbt::Byte(n) => Some(*n as usize),
        Nbt::Long(n) => Some(*n as usize),
        _ => None,
    }
}

fn text_eq(a: &Nbt, s: &String) -> (r: bool)
    ensures
        r == (a@ == NbtView::Text(s@)),
{
    match a {
        Nbt::Text(t) => crate::text::eq_chars(&chars_of(t.as_str()), &chars_of(s.as_str())),
        _ => false,
    }
}

/// A palette tag's name-to-index map.
#[verifier::loop_isolation(false)]
pub fn palette_entries(p: &Nbt) -> (r: Option<Vec<(String, usize)>>)
    ensures
        match palette_map(p@) {
            Some(m) => r is Some && pmap_view(r->Some_0@) == m,
            None => r is None,
        },
{
    let mut out: Vec<(String, usize)> = Vec::new();
    match p {
        Nbt::Compound(es) => {
            proof {
                lemma_entries_view(es@);
            }
            let ghost ev = entries_view(es@);
            let mut i: usize = 0;
            assert(pmap_view(out@) =~= compound_palette(ev, 0));
            while i < es.len()
                invariant
                    i <= es@.len(),
                    ev == entries_view(es@),
                    ev.len() == es@.len(),
                    forall|m: int| 0 <= m < es@.len() ==> #[trigger] ev[m] == (es@[m].0@, es@[m].1@),
                    pmap_view(out@) == compound_palette(ev, i as nat),
                decreases es.len() - i,
            {
                let ghost before = pmap_view(out@);
                match index_value(&es[i].1) {
                    Some(ix) => {
                        out.push((copy_string(&es[i].0), ix));
                        assert(pmap_view(out@) =~= before.push((ev[i as int].0, ix)));
                    },
                    None => {},
                }
                i += 1;
                assert(pmap_view(out@) =~= compound_palette(ev, i as nat));
            }
            Some(out)
        },
        Nbt::List(l) => {
            proof {
                lemma_list_view(l@);
            }
            let ghost lv = list_view(l@);
            let mut i: usize = 0;
            assert(pmap_view(out@) =~= list_palette(lv, 0));
            while i < l.len()
                invariant
                    i <= l@.len(),
                    lv == list_view(l@),
                    lv.len() == l@.len(),
                    forall|m: int| 0 <= m < l@.len() ==> #[trigger] lv[m] == l@[m]@,
                    pmap_view(out@) == list_palette(lv, i as nat),
                decreases l.len() - i,
            {
                let ghost before = pmap_view(out@);
                assert(lv[i as int] == l@[i as int]@);
                match &l[i] {
                    Nbt::Text(t) => {
                        let mut later = false;
                        let mut j: usize = i + 1;
                        while j < l.len()
                            invariant
                                i < j <= l@.len(),
                                l@[i as int] == Nbt::Text(*t),
                                later == exists|k: int| i < k < j && lv[k] == NbtView::Text(t@),
                            decreases l.len() - j,
                        {
                            assert(lv[j as int] == l@[j as int]@);
                            if text_eq(&l[j], t) {
                                later = true;
                            }
                            j += 1;
                        }
                        if !later {
                            out.push((copy_string(t), i));
                            assert(pmap_view(out@) =~= before.push((t@, i)));
                        }
                    },
                    _ => {},
                }
                i += 1;
                assert(pmap_view(out@) =~= list_palette(lv, i as nat));
            }
            Some(out)
        },
        _ => None,
    }
}

#[verifier::loop_isolation(false)]
fn bytes_value(v: Option<&Nbt>) -> (r: Option<Vec<u8>>)
    ensures
        match bytes_of(opt_view(v)) {
            Some(d) => r is Some && r->Some_0@ == d,
            None => r is None,
        },
{
    match v {
        Some(Nbt::ByteArray(a)) => {
            let mut out: Vec<u8> = Vec::new();
            let mut i: usize = 0;
            while i < a.len()
                invariant
                    i <= a@.len(),
                    out@ == a@.take(i as int).map_values(|b: i8| b as u8),
                decreases a.len() - i,
            {
                out.push(a[i] as u8);
                i += 1;
                assert(out@ =~= a@.take(i as int).map_values(|b: i8| b as u8));
            }
            assert(a@.take(a@.len() as int) =~= a@);
            Some(out)
        },
        Some(Nbt::List(l)) => {
            proof {
                lemma_list_view(l@);
            }
            let ghost lv = list_view(l@);
            let mut out: Vec<u8> = Vec::new();
            let mut i: usize = 0;
            while i < l.len()
                invariant
                    i <= l@.len(),
                    lv == list_view(l@),
                    lv.len() == l@.len(),
                    forall|m: int| 0 <= m < l@.len() ==> #[trigger] lv[m] == l@[m]@,
                    forall|m: int| 0 <= m < i ==> (#[trigger] lv[m]) is Byte || lv[m] is Int,
                    out@ == lv.take(i as int).map_values(|t: NbtView| byte_of_tag(t)),
                decreases l.len() - i,
            {
                assert(lv[i as int] == l@[i as int]@);
                let ghost before = out@;
                match &l[i] {
                    Nbt::Byte(b) => out.push(*b as u8),
                    Nbt::Int(n) => out.push(*n as u8),
                    _ => {
                        assert(!(lv[i as int] is Byte || lv[i as int] is Int));
                        assert(!(forall|m: int| 0 <= m < lv.len() ==> (#[trigger] lv[m]) is Byte || lv[m] is Int));
                        return None;
                    },
                }
                assert(out@ == before.push(byte_of_tag(lv[i as int])));
                i += 1;
                assert(out@ =~= lv.take(i as int).map_values(|t: NbtView| byte_of_tag(t)));
            }
            assert(lv.take(l@.len() as int) =~= lv);
            Some(out)
        },
        _ => None,
    }
}

fn payload(root: &Nbt, version: i32) -> (r: Option<(Vec<(String, usize)>, Vec<u8>)>)
    ensures
        match block_payload(root@, version) {
            Some((m, d)) => r is Some && pmap_view(r->Some_0.0@) == m && r->Some_0.1@ == d,
            None => r is None,
        },
{
    if version >= 3 {
        let b = child_of(Some(root), "Blocks");
        if b.is_none() {
            return None;
        }
        let p = match palette_of(b) {
            Some(p) => p,
            None => return None,
        };
        let d = match bytes_value(child_of(b, "Data")) {
            Some(d) => Some(d),
            None => bytes_value(child_of(b, "BlockData")),
        };
        match (d, palette_entries(p)) {
            (Some(d), Some(m)) => Some((m, d)),
            _ => None,
        }
    } else {
        let p = match palette_of(Some(root)) {
            Some(p) => p,
            None => return None,
        };
        match (bytes_value(child_of(Some(root), "BlockData")), palette_entries(p)) {
            (Some(d), Some(m)) => Some((m, d)),
            _ => None,
        }
    }
}

fn list_len(v: Option<&Nbt>, k: &str) -> (r: usize)
    ensures
        r as nat == list_len_of(opt_view(v), k@),
{
    match child_of(v, k) {
        Some(Nbt::List(l)) => {
            proof {
                lemma_list_view(l@);
            }
            l.len()
        },
        _ => 0,
    }
}

fn dim(root: &Nbt, k: &str) -> (r: Option<u16>)
    ensures
        r == dim_of(root@, k@),
{
    u16_value(child_of(Some(root), k))
}

/// What `schem info` reports for a schematic root read from `path`.
pub fn schem_info_from_root(root: &Nbt, path: &str) -> (r: Result<SchemInfo, String>)
    requires
        !info_unreadable(root@),
    ensures
        match schem_info_spec(root@, path@) {
            Ok(i) => r is Ok && r->Ok_0@ == i,
            Err(m) => r is Err && r->Err_0@ == m,
        },
{
    let version = match i32_value(child_of(Some(root), "Version")) {
        Some(v) => v,
        None => 2,
    };
    let dv = i32_value(child_of(Some(root), "DataVersion"));
    let w = match dim(root, "Width") {
        Some(v) => v,
        None => return Err(string_from("schem missing Width")),
    };
    let h = match dim(root, "Height") {
        Some(v) => v,
        None => return Err(string_from("schem missing Height")),
    };
    let l = match dim(root, "Length") {
        Some(v) => v,
        None => return Err(string_from("schem missing Length")),
    };
    let volume = match (w as usize).checked_mul(h as usize) {
        Some(a) => match a.checked_mul(l as usize) {
            Some(v) => v,
            None => return Err(string_from("schem volume overflow")),
        },
        None => return Err(string_from("schem volume overflow")),
    };
    let empty: Vec<(String, usize)> = Vec::new();
    assert(tally_view(empty@) =~= Seq::<(Seq<char>, nat)>::empty());
    let top = if volume == 0 {
        empty
    } else {
        match payload(root, version) {
            None => empty,
            Some((m, d)) => {
                proof {
                    lemma_histogram_of(m@, d@, volume);
                    assert forall|j: int| 0 <= j < m@.len() implies (#[trigger] m@[j]).1 < usize::MAX by {
                        assert(pmap_view(m@)[j].1 == m@[j].1);
                    }
                }
                match block_histogram(m.as_slice(), d.as_slice(), volume, 16) {
                    Ok(t) => t,
                    Err(e) => return Err(e),
                }
            },
        }
    };
    let mc = match dv {
        Some(d) => Some(ResolvedVersion::from_data_version(d).name),
        None => None,
    };
    let r = SchemInfo {
        version,
        data_version: dv,
        mc,
        width: w,
        height: h,
        length: l,
        offset: schem_offset(root),
        palette_n: palette_len(root, version),
        volume,
        entities: list_len(Some(root), "Entities"),
        block_entities: block_entities(root, version),
        top_blocks: top,
        path: string_from(path),
    };
    Ok(r)
}

fn palette_len(root: &Nbt, version: i32) -> (r: usize)
    ensures
        r as nat == palette_count(root@, version),
{
    let p = if version >= 3 && child_of(Some(root), "Blocks").is_some() {
        palette_of(child_of(Some(root), "Blocks"))
    } else {
        palette_of(Some(root))
    };
    match p {
        Some(Nbt::Compound(m)) => {
            proof {
                lemma_entries_view(m@);
            }
            m.len()
        },
        Some(Nbt::List(l)) => {
            proof {
                lemma_list_view(l@);
            }
            l.len()
        },
        _ => 0,
    }
}

fn block_entities(root: &Nbt, version: i32) -> (r: usize)
    ensures
        r as nat == block_entity_count(root@, version),
{
    let b = child_of(Some(root), "Blocks");
    if version >= 3 && b.is_some() {
        let n = list_len(b, "BlockEntities");
        if n > 0 {
            return n;
        }
        return list_len(b, "TileEntities");
    }
    let n = list_len(Some(root), "BlockEntities");
    if n > 0 {
        return n;
    }
    list_len(Some(root), "TileEntities")
}

/// Whether `schem_info_from_root` can read a root's block data (see
/// `info_unreadable`).
#[verifier::loop_isolation(false)]
pub fn info_readable(root: &Nbt) -> (r: bool)
    ensures
        r == !info_unreadable(root@),
{
    let (w, h, l) = match (dim(root, "Width"), dim(root, "Height"), dim(root, "Length")) {
        (Some(w), Some(h), Some(l)) => (w, h, l),
        _ => return true,
    };
    let volume = match (w as usize).checked_mul(h as usize) {
        Some(a) => match a.checked_mul(l as usize) {
            Some(v) => v,
            None => return true,
        },
        None => return true,
    };
    if volume == 0 {
        return true;
    }
    let version = match i32_value(child_of(Some(root), "Version")) {
        Some(v) => v,
        None => 2,
    };
    match payload(root, version) {
        None => true,
        Some((m, d)) => {
            let mut j: usize = 0;
            while j < m.len()
                invariant
                    j <= m@.len(),
                    forall|k: int| 0 <= k < j ==> (#[trigger] m@[k]).1 != usize::MAX,
                decreases m.len() - j,
            {
                if m[j].1 == usize::MAX {
                    assert(pmap_view(m@)[j as int].1 == usize::MAX);
                    return false;
                }
                j += 1;
            }
            assert forall|k: int| 0 <= k < pmap_view(m@).len() implies (#[trigger] pmap_view(m@)[k]).1 != usize::MAX by {
                assert(pmap_view(m@)[k].1 == m@[k].1);
            }
            varints_decodable(d.as_slice(), volume)
        },
    }
}

/// The palette map and block data a schematic import reads, or the error
/// for what is missing.
pub open spec fn payload_result(root: NbtView, version: i32) -> Result<(Seq<(Seq<char>, usize)>, Seq<u8>), Seq<char>> {
    if version >= 3 {
        match child(Some(root), "Blocks"@) {
            None => Err("v3 schem missing Blocks"@),
            Some(b) => match find_palette(Some(b)) {
                None => Err("v3 missing Palette"@),
                Some(p) => {
                    let d = match bytes_of(child(Some(b), "Data"@)) {
                        Some(d) => Some(d),
                        None => bytes_of(child(Some(b), "BlockData"@)),
                    };
                    match d {
                        None => Err("v3 missing Block Data"@),
                        Some(d) => match palette_map(p) {
                            None => Err("unsupported Palette type"@),
                            Some(m) => Ok((m, d)),
                        },
                    }
                },
            },
        }
    } else {
        match find_palette(Some(root)) {
            None => Err("schem missing Palette"@),
            Some(p) => match bytes_of(child(Some(root), "BlockData"@)) {
                None => Err("schem missing BlockData"@),
                Some(d) => match palette_map(p) {
                    None => Err("unsupported Palette type"@),
                    Some(m) => Ok((m, d)),
                },
            },
        }
    }
}

fn payload_checked(root: &Nbt, version: i32) -> (r: Result<(Vec<(String, usize)>, Vec<u8>), String>)
    ensures
        match payload_result(root@, version) {
            Ok((m, d)) => r is Ok && pmap_view(r->Ok_0.0@) == m && r->Ok_0.1@ == d,
            Err(e) => r is Err && r->Err_0@ == e,
        },
{
    if version >= 3 {
        let b = child_of(Some(root), "Blocks");
        if b.is_none() {
            return Err(string_from("v3 schem missing Blocks"));
        }
        let p = match palette_of(b) {
            Some(p) => p,
            None => return Err(string_from("v3 missing Palette")),
        };
        let d = match bytes_value(child_of(b, "Data")) {
            Some(d) => d,
            None => match bytes_value(child_of(b, "BlockData")) {
                Some(d) => d,
                None => return Err(string_from("v3 missing Block Data")),
            },
        };
        match palette_entries(p) {
            Some(m) => Ok((m, d)),
            None => Err(string_from("unsupported Palette type")),
        }
    } else {
        let p = match palette_of(Some(root)) {
            Some(p) => p,
            None => return Err(string_from("schem missing Palette")),
        };
        let d = match bytes_value(child_of(Some(root), "BlockData")) {
            Some(d) => d,
            None => return Err(string_from("schem missing BlockData")),
        };
        match palette_entries(p) {
            Some(m) => Ok((m, d)),
            None => Err(string_from("unsupported Palette type")),
        }
    }
}

/// Importing would panic: a volume past the largest `usize`, a palette
/// index that is the largest `usize`, or a varint running past 32 bits.
pub open spec fn import_unreadable(root: NbtView) -> bool {
    match (dim_of(root, "Width"@), dim_of(root, "Height"@), dim_of(root, "Length"@)) {
        (Some(w), Some(h), Some(l)) => match payload_result(root, version_of(root)) {
            Ok((m, d)) => w * h * l > usize::MAX || (exists|j: int| 0 <= j < m.len() && (#[trigger] m[j]).1
                == usize::MAX) || read_all(d, (w * h * l) as nat, 0, seq![]) is ShiftOverflow,
            Err(_) => false,
        },
        _ => false,
    }
}

/// The palette map names a template import gives cells, by view.
pub open spec fn import_of(w: u16, h: u16, l: u16, pv: Seq<(Seq<char>, usize)>, data: Seq<u8>) -> Result<
    (Seq<Seq<char>>, Seq<u16>),
    Seq<char>,
> {
    crate::schem_template::schem_import(w, h, l, choose|p: Seq<(String, usize)>| pmap_view(p) == pv, data)
}

proof fn lemma_import_of(w: u16, h: u16, l: u16, p: Seq<(String, usize)>, data: Seq<u8>)
    ensures
        import_of(w, h, l, pmap_view(p), data) == crate::schem_template::schem_import(w, h, l, p, data),
{
    let q = choose|q: Seq<(String, usize)>| pmap_view(q) == pmap_view(p);
    assert(pmap_view(q) == pmap_view(p));
    lemma_slots_by_view(q, p, p.len());
    assert(p.len() == pmap_view(p).len() && q.len() == pmap_view(q).len());
    assert(palette_slots(q) =~= palette_slots(p));
}

/// What importing a schematic root as template `name` gives: its size, the
/// dense palette and one index per cell, or the error met.
pub open spec fn template_of_root(root: NbtView) -> Result<(Seq<u32>, Seq<Seq<char>>, Seq<u16>), Seq<char>> {
    match dim_of(root, "Width"@) {
        None => Err("schem missing Width"@),
        Some(w) => match dim_of(root, "Height"@) {
            None => Err("schem missing Height"@),
            Some(h) => match dim_of(root, "Length"@) {
                None => Err("schem missing Length"@),
                Some(l) => match payload_result(root, version_of(root)) {
                    Err(e) => Err(e),
                    Ok((m, d)) => match import_of(w, h, l, m, d) {
                        Err(e) => Err(e),
                        Ok((dense, blocks)) => Ok((seq![w as u32, h as u32, l as u32], dense, blocks)),
                    },
                },
            },
        },
    }
}

/// The blocks of a schematic root as a template named `name` (its entities
/// are read separately).
pub fn schem_template_from_root(root: &Nbt, name: &str) -> (r: Result<crate::template::Template, String>)
    requires
        !import_unreadable(root@),
    ensures
        match template_of_root(root@) {
            Ok((size, dense, blocks)) => r is Ok && r->Ok_0.name@ == name@ && r->Ok_0.size@ == size
                && crate::level::string_views(r->Ok_0.palette@) == dense && r->Ok_0.blocks@ == blocks,
            Err(e) => r is Err && r->Err_0@ == e,
        },
{
    let version = match i32_value(child_of(Some(root), "Version")) {
        Some(v) => v,
        None => 2,
    };
    let w = match dim(root, "Width") {
        Some(v) => v,
        None => return Err(string_from("schem missing Width")),
    };
    let h = match dim(root, "Height") {
        Some(v) => v,
        None => return Err(string_from("schem missing Height")),
    };
    let l = match dim(root, "Length") {
        Some(v) => v,
        None => return Err(string_from("schem missing Length")),
    };
    let (m, d) = match payload_checked(root, version) {
        Ok(p) => p,
        Err(e) => return Err(e),
    };
    proof {
        lemma_import_of(w, h, l, m@, d@);
        assert forall|j: int| 0 <= j < m@.len() implies (#[trigger] m@[j]).1 < usize::MAX by {
            assert(pmap_view(m@)[j].1 == m@[j].1);
        }
    }
    crate::schem_template::schem_template(name, w, h, l, m.as_slice(), d.as_slice())
}

/// Whether `schem_template_from_root` can read a root (see
/// `import_unreadable`).
#[verifier::loop_isolation(false)]
pub fn import_readable(root: &Nbt) -> (r: bool)
    ensures
        r == !import_unreadable(root@),
{
    let (w, h, l) = match (dim(root, "Width"), dim(root, "Height"), dim(root, "Length")) {
        (Some(w), Some(h), Some(l)) => (w, h, l),
        _ => return true,
    };
    let version = match i32_value(child_of(Some(root), "Version")) {
        Some(v) => v,
        None => 2,
    };
    match payload_checked(root, version) {
        Err(_) => true,
        Ok((m, d)) => {
            let volume = match (w as usize).checked_mul(h as usize) {
                Some(a) => match a.checked_mul(l as usize) {
                    Some(v) => v,
                    None => return false,
                },
                None => {
                    assert(w * h <= 0xffff_ffff) by (nonlinear_arith)
                        requires
                            w <= 0xffff,
                            h <= 0xffff,
                    ;
                    return false;
                },
            };
            let mut j: usize = 0;
            while j < m.len()
                invariant
                    j <= m@.len(),
                    forall|k: int| 0 <= k < j ==> (#[trigger] m@[k]).1 != usize::MAX,
                decreases m.len() - j,
            {
                if m[j].1 == usize::MAX {
                    assert(pmap_view(m@)[j as int].1 == usize::MAX);
                    return false;
                }
                j += 1;
            }
            assert forall|k: int| 0 <= k < pmap_view(m@).len() implies (#[trigger] pmap_view(m@)[k]).1 != usize::MAX by {
                assert(pmap_view(m@)[k].1 == m@[k].1);
            }
            varints_decodable(d.as_slice(), volume)
        },
    }
}

/// Where an import pastes: the requested origin moved by the schematic's
/// offset.
pub fn import_origin(root: &Nbt, ox: i32, oy: i32, oz: i32) -> (r: [i32; 3])
    requires
        i32::MIN <= ox + offset_of(root@)[0] <= i32::MAX,
        i32::MIN <= oy + offset_of(root@)[1] <= i32::MAX,
        i32::MIN <= oz + offset_of(root@)[2] <= i32::MAX,
    ensures
        r@ == seq![
            (ox + offset_of(root@)[0]) as i32,
            (oy + offset_of(root@)[1]) as i32,
            (oz + offset_of(root@)[2]) as i32,
        ],
{
    let off = schem_offset(root);
    let r = [ox + off[0], oy + off[1], oz + off[2]];
    assert(r@ =~= seq![
        (ox + offset_of(root@)[0]) as i32,
        (oy + offset_of(root@)[1]) as i32,
        (oz + offset_of(root@)[2]) as i32,
    ]);
    r
}

} // verus!
