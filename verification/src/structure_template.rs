//! Templates read from and written as vanilla structure block lists.

use vstd::prelude::*;
use crate::blockstate::{is_air_like_view, parse_state, BlockState};
use crate::indexset::{index_set_insert_full, index_set_into_vec, index_set_items, index_set_new};
use crate::level::string_views;
use crate::palette::{key_index, lemma_key_index_of_distinct};
use crate::template::{cell_x, cell_y, cell_z, lemma_cell_coords, lemma_cell_index_bounds, Template};
use crate::text::{append_str, chars_of, copy_string, nat_text, push_nat, string_from, string_of};

verus! {

/// One entry of a structure's block list as read: its palette index and
/// its position, each absent when the file lacks it (position coordinates
/// that are not integers read as 0).
#[derive(Clone, Debug)]
pub struct StructureBlock {
    pub state: Option<i64>,
    pub pos: Option<Vec<i64>>,
}

pub open spec fn pos_view(p: Option<Vec<i64>>) -> Option<Seq<i64>> {
    match p {
        Some(v) => Some(v@),
        None => None,
    }
}

/// Adding `x` to a set kept in insertion order.
pub open spec fn set_insert(items: Seq<Seq<char>>, x: Seq<char>) -> Seq<Seq<char>> {
    if items.contains(x) {
        items
    } else {
        items.push(x)
    }
}

pub open spec fn distinct(items: Seq<Seq<char>>) -> bool {
    forall|a: int, b: int| 0 <= a < b < items.len() ==> items[a] != items[b]
}

/// The palette and cells after the first `k` block entries, or the error
/// met. Entries outside the box are skipped.
pub open spec fn structure_upto(
    sx: i32,
    sy: i32,
    sz: i32,
    palette: Seq<String>,
    entries: Seq<StructureBlock>,
    k: nat,
) -> Result<(Seq<Seq<char>>, Seq<u16>), Seq<char>>
    decreases k,
{
    if k == 0 {
        Ok((seq!["minecraft:air"@], Seq::new((sx * sy * sz) as nat, |i: int| 0u16)))
    } else {
        match structure_upto(sx, sy, sz, palette, entries, (k - 1) as nat) {
            Err(m) => Err(m),
            Ok((items, blocks)) => {
                let e = entries[k - 1];
                match e.state {
                    None => Err("block missing state"@),
                    Some(st) => match pos_view(e.pos) {
                        None => Err("block missing pos"@),
                        Some(p) => if p.len() != 3 {
                            Err("block pos must be [x,y,z]"@)
                        } else {
                            let (x, y, z) = (p[0] as i32, p[1] as i32, p[2] as i32);
                            let si = st as usize;
                            if x < 0 || y < 0 || z < 0 || x >= sx || y >= sy || z >= sz {
                                Ok((items, blocks))
                            } else if si >= palette.len() {
                                Err("palette index "@ + nat_text(si as nat) + " out of range"@)
                            } else {
                                let items2 = set_insert(items, palette[si as int]@);
                                let id = key_index(items2, palette[si as int]@);
                                Ok((items2, blocks.update((y * sz + z) * sx + x, id as u16)))
                            }
                        },
                    },
                }
            },
        }
    }
}

/// What importing a structure gives: the size checks, then the block list.
pub open spec fn structure_import(
    size: Seq<i32>,
    palette: Seq<String>,
    entries: Seq<StructureBlock>,
) -> Result<(Seq<Seq<char>>, Seq<u16>), Seq<char>> {
    let (sx, sy, sz) = (size[0], size[1], size[2]);
    if sx <= 0 || sy <= 0 || sz <= 0 {
        Err("structure size must be positive"@)
    } else if sx * sy * sz > 64 * 64 * 64 {
        Err("structure too large (max 64^3 dense volume)"@)
    } else {
        structure_upto(sx, sy, sz, palette, entries, entries.len())
    }
}

proof fn lemma_structure_upto_props(
    sx: i32,
    sy: i32,
    sz: i32,
    palette: Seq<String>,
    entries: Seq<StructureBlock>,
    k: nat,
)
    requires
        k <= entries.len(),
        sx > 0,
        sy > 0,
        sz > 0,
    ensures
        structure_upto(sx, sy, sz, palette, entries, k) is Ok ==> distinct(
            structure_upto(sx, sy, sz, palette, entries, k)->Ok_0.0,
        ),
        structure_upto(sx, sy, sz, palette, entries, k) is Ok ==> structure_upto(
            sx,
            sy,
            sz,
            palette,
            entries,
            k,
        )->Ok_0.1.len() == sx * sy * sz,
        structure_upto(sx, sy, sz, palette, entries, k) is Ok ==> structure_upto(
            sx,
            sy,
            sz,
            palette,
            entries,
            k,
        )->Ok_0.0.len() >= 1,
    decreases k,
{
    assert(sx * sy * sz > 0) by (nonlinear_arith)
        requires
            sx > 0,
            sy > 0,
            sz > 0,
    ;
    if k == 0 {
        assert(distinct(seq!["minecraft:air"@]));
    } else {
        lemma_structure_upto_props(sx, sy, sz, palette, entries, (k - 1) as nat);
        let prev = structure_upto(sx, sy, sz, palette, entries, (k - 1) as nat);
        if prev is Ok {
            let items = prev->Ok_0.0;
            let blocks = prev->Ok_0.1;
            let e = entries[k - 1];
            if e.state is Some && pos_view(e.pos) is Some {
                let p = pos_view(e.pos)->0;
                let st = e.state->0;
                if p.len() == 3 {
                    let (x, y, z) = (p[0] as i32, p[1] as i32, p[2] as i32);
                    let si = st as usize;
                    if !(x < 0 || y < 0 || z < 0 || x >= sx || y >= sy || z >= sz) && si
                        < palette.len() {
                        let n = palette[si as int]@;
                        let items2 = set_insert(items, n);
                        lemma_cell_index_bounds(sx as int, sy as int, sz as int, x as int, y as int, z as int);
                        if !items.contains(n) {
                            assert forall|a: int, b: int|
                                0 <= a < b < items2.len() implies items2[a] != items2[b] by {
                                if b == items.len() {
                                    assert(items[a] != n);
                                }
                            }
                        }
                        assert(distinct(items2));
                    }
                }
            }
        }
    }
}

/// Lay a structure's block list into a template. The size must be
/// positive on every axis and at most 64³ cells; entries outside the box
/// are skipped; the first entry without a state, without a position,
/// with a position of another length, or naming a palette index out of
/// range is the error. The template's palette starts with air and takes
/// each entry's name when first used.
pub fn structure_template(
    name: &str,
    size: [i32; 3],
    palette: &Vec<String>,
    entries: &Vec<StructureBlock>,
) -> (r: Result<Template, String>)
    ensures
        match structure_import(size@, palette@, entries@) {
            Ok((items, blocks)) => r is Ok && r->Ok_0.name@ == name@ && r->Ok_0.size@ == seq![
                size@[0] as u32,
                size@[1] as u32,
                size@[2] as u32,
            ] && string_views(r->Ok_0.palette@) == items && r->Ok_0.blocks@ == blocks,
            Err(m) => r is Err && r->Err_0@ == m,
        },
{
    let sx = size[0];
    let sy = size[1];
    let sz = size[2];
    if sx <= 0 || sy <= 0 || sz <= 0 {
        return Err(string_from("structure size must be positive"));
    }
    assert((sx as int) * (sy as int) * (sz as int) <= 0x1_0000_0000_0000_0000_0000_0000) by (nonlinear_arith)
        requires
            0 < sx <= 0x8000_0000,
            0 < sy <= 0x8000_0000,
            0 < sz <= 0x8000_0000,
    ;
    assert((sx as int) * (sy as int) <= 0x1_0000_0000_0000_0000) by (nonlinear_arith)
        requires
            0 < sx <= 0x8000_0000,
            0 < sy <= 0x8000_0000,
    ;
    if (sx as i128) * (sy as i128) * (sz as i128) > 64 * 64 * 64 {
        return Err(string_from("structure too large (max 64^3 dense volume)"));
    }
    let n: usize = ((sx as i128) * (sy as i128) * (sz as i128)) as usize;
    let mut set = index_set_new();
    let _ = index_set_insert_full(&mut set, string_from("minecraft:air"));
    let mut blocks: Vec<u16> = Vec::new();
    let mut f: usize = 0;
    while f < n
        invariant
            f <= n,
            blocks@ == Seq::new(f as nat, |i: int| 0u16),
        decreases n - f,
    {
        blocks.push(0u16);
        assert(blocks@ =~= Seq::new((f + 1) as nat, |i: int| 0u16));
        f += 1;
    }
    assert(index_set_items(set) =~= seq!["minecraft:air"@]);
    let mut k: usize = 0;
    while k < entries.len()
        invariant
            k <= entries@.len(),
            size@ == seq![sx, sy, sz],
            sx > 0 && sy > 0 && sz > 0,
            sx * sy * sz <= 64 * 64 * 64,
            n == sx * sy * sz,
            structure_upto(sx, sy, sz, palette@, entries@, k as nat) == Ok::<
                (Seq<Seq<char>>, Seq<u16>),
                Seq<char>,
            >((index_set_items(set), blocks@)),
        decreases entries.len() - k,
    {
        proof {
            lemma_structure_upto_props(sx, sy, sz, palette@, entries@, k as nat);
        }
        let e = &entries[k];
        let st = match e.state {
            None => {
                proof {
                    lemma_structure_err_sticks(sx, sy, sz, palette@, entries@, (k + 1) as nat, entries@.len());
                }
                return Err(string_from("block missing state"));
            },
            Some(v) => v,
        };
        let pos = match &e.pos {
            None => {
                proof {
                    lemma_structure_err_sticks(sx, sy, sz, palette@, entries@, (k + 1) as nat, entries@.len());
                }
                return Err(string_from("block missing pos"));
            },
            Some(p) => p,
        };
        if pos.len() != 3 {
            proof {
                lemma_structure_err_sticks(sx, sy, sz, palette@, entries@, (k + 1) as nat, entries@.len());
            }
            return Err(string_from("block pos must be [x,y,z]"));
        }
        let x = pos[0] as i32;
        let y = pos[1] as i32;
        let z = pos[2] as i32;
        let si = st as usize;
        if x < 0 || y < 0 || z < 0 || x >= sx || y >= sy || z >= sz {
            k += 1;
            continue;
        }
        if si >= palette.len() {
            let mut m = chars_of("palette index ");
            push_nat(&mut m, si as u64);
            append_str(&mut m, " out of range");
            proof {
                lemma_structure_err_sticks(sx, sy, sz, palette@, entries@, (k + 1) as nat, entries@.len());
            }
            return Err(string_of(&m));
        }
        let ghost items = index_set_items(set);
        let (id, _) = index_set_insert_full(&mut set, copy_string(&palette[si]));
        proof {
            let items2 = set_insert(items, palette@[si as int]@);
            assert(index_set_items(set) == items2);
            assert(distinct(items2)) by {
                if !items.contains(palette@[si as int]@) {
                    assert forall|a: int, b: int| 0 <= a < b < items2.len() implies items2[a]
                        != items2[b] by {
                        if b == items.len() {
                            assert(items[a] != palette@[si as int]@);
                        }
                    }
                }
            }
            lemma_key_index_of_distinct(items2, id as int);
            lemma_cell_index_bounds(sx as int, sy as int, sz as int, x as int, y as int, z as int);
        }
        let idx: usize = ((y as usize * sz as usize + z as usize) * sx as usize + x as usize);
        blocks.set(idx, id as u16);
        k += 1;
    }
    let pal = index_set_into_vec(set);
    Ok(Template { name: string_from(name), size: [sx as u32, sy as u32, sz as u32], palette: pal, blocks })
}

proof fn lemma_structure_err_sticks(
    sx: i32,
    sy: i32,
    sz: i32,
    palette: Seq<String>,
    entries: Seq<StructureBlock>,
    k: nat,
    j: nat,
)
    requires
        k <= j,
        structure_upto(sx, sy, sz, palette, entries, k) is Err,
    ensures
        structure_upto(sx, sy, sz, palette, entries, j) == structure_upto(sx, sy, sz, palette, entries, k),
    decreases j - k,
{
    if k < j {
        lemma_structure_err_sticks(sx, sy, sz, palette, entries, k, (j - 1) as nat);
    }
}

/// Whether a palette entry names an air block (an entry that does not
/// parse does not).
pub open spec fn names_air(name: Seq<char>) -> bool {
    match parse_state(name) {
        Ok(b) => is_air_like_view(b),
        Err(_) => false,
    }
}

/// The block list entries for the first `i` cells of a template: each
/// non-air cell's palette index and position, or the first error met.
pub open spec fn export_upto(t: Template, i: nat) -> Result<Seq<(u16, (i32, i32, i32))>, Seq<char>>
    decreases i,
{
    if i == 0 {
        Ok(seq![])
    } else {
        match export_upto(t, (i - 1) as nat) {
            Err(e) => Err(e),
            Ok(v) => {
                let j = i - 1;
                let (dx, dy, dz) = t.dims();
                if j >= t.blocks@.len() {
                    Err("template blocks truncated"@)
                } else {
                    let id = t.blocks@[j];
                    if id >= t.palette@.len() {
                        Err("bad palette id"@)
                    } else if names_air(t.palette@[id as int]@) {
                        Ok(v)
                    } else {
                        Ok(
                            v.push(
                                (
                                    id,
                                    (
                                        cell_x(dx, dz, j) as i32,
                                        cell_y(dx, dz, j) as i32,
                                        cell_z(dx, dz, j) as i32,
                                    ),
                                ),
                            ),
                        )
                    }
                }
            },
        }
    }
}

proof fn lemma_export_err_sticks(t: Template, i: nat, j: nat)
    requires
        i <= j,
        export_upto(t, i) is Err,
    ensures
        export_upto(t, j) == export_upto(t, i),
    decreases j - i,
{
    if i < j {
        lemma_export_err_sticks(t, i, (j - 1) as nat);
    }
}

/// The block list a structure export writes: the palette index and
/// position of every cell whose block is not air, in y, z, x order.
pub fn structure_block_list(t: &Template) -> (r: Result<Vec<(u16, (i32, i32, i32))>, String>)
    requires
        t.dims().0 <= i32::MAX,
        t.dims().1 <= i32::MAX,
        t.dims().2 <= i32::MAX,
    ensures
        ({
            let (dx, dy, dz) = t.dims();
            match export_upto(*t, (dx * dy * dz) as nat) {
                Ok(v) => r is Ok && r->Ok_0@ == v,
                Err(e) => r is Err && r->Err_0@ == e,
            }
        }),
{
    let dx = t.size[0];
    let dy = t.size[1];
    let dz = t.size[2];
    let ghost (gx, gy, gz) = t.dims();
    let ghost tt = *t;
    let mut out: Vec<(u16, (i32, i32, i32))> = Vec::new();
    let mut i: usize = 0;
    let mut y: u32 = 0;
    while y < dy
        invariant
            y <= dy,
            tt == *t,
            t.dims() == (gx, gy, gz),
            (gx, gy, gz) == (dx as int, dy as int, dz as int),
            gx <= i32::MAX && gy <= i32::MAX && gz <= i32::MAX,
            i == y * gz * gx,
            export_upto(tt, i as nat) == Ok::<Seq<(u16, (i32, i32, i32))>, Seq<char>>(out@),
        decreases dy - y,
    {
        let mut z: u32 = 0;
        while z < dz
            invariant
                y < dy,
                z <= dz,
                tt == *t,
                t.dims() == (gx, gy, gz),
                (gx, gy, gz) == (dx as int, dy as int, dz as int),
                gx <= i32::MAX && gy <= i32::MAX && gz <= i32::MAX,
                i == (y * gz + z) * gx,
                export_upto(tt, i as nat) == Ok::<Seq<(u16, (i32, i32, i32))>, Seq<char>>(out@),
            decreases dz - z,
        {
            let mut x: u32 = 0;
            while x < dx
                invariant
                    y < dy,
                    z < dz,
                    x <= dx,
                    tt == *t,
                    t.dims() == (gx, gy, gz),
                    (gx, gy, gz) == (dx as int, dy as int, dz as int),
                    gx <= i32::MAX && gy <= i32::MAX && gz <= i32::MAX,
                    i == (y * gz + z) * gx + x,
                    export_upto(tt, i as nat) == Ok::<Seq<(u16, (i32, i32, i32))>, Seq<char>>(out@),
                decreases dx - x,
            {
                proof {
                    lemma_cell_coords(gx, gy, gz, x as int, y as int, z as int);
                    lemma_cell_index_bounds(gx, gy, gz, x as int, y as int, z as int);
                }
                let ghost total = (gx * gy * gz) as nat;
                if i >= t.blocks.len() {
                    proof {
                        lemma_export_err_sticks(tt, (i + 1) as nat, total);
                    }
                    return Err(string_from("template blocks truncated"));
                }
                let id = t.blocks[i];
                if id as usize >= t.palette.len() {
                    proof {
                        lemma_export_err_sticks(tt, (i + 1) as nat, total);
                    }
                    return Err(string_from("bad palette id"));
                }
                let air = match BlockState::parse(t.palette[id as usize].as_str()) {
                    Ok(b) => b.is_air_like(),
                    Err(_) => false,
                };
                if !air {
                    out.push((id, (x as i32, y as i32, z as i32)));
                }
                i += 1;
                x += 1;
            }
            assert(i == (y * gz + z + 1) * gx) by (nonlinear_arith)
                requires
                    i == (y * gz + z) * gx + x,
                    x == gx,
            ;
            z += 1;
        }
        assert(i == (y + 1) * gz * gx) by (nonlinear_arith)
            requires
                i == (y * gz + z) * gx,
                z == gz,
        ;
        y += 1;
    }
    assert(i == gx * gy * gz) by (nonlinear_arith)
        requires
            i == y * gz * gx,
            y == gy,
    ;
    Ok(out)
}

} // verus!
