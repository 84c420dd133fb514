//! Block templates (clipboards): a box of palette indices that can be
//! rotated about the vertical axis and mirrored.

use vstd::prelude::*;
use vstd::arithmetic::div_mod::{lemma_fundamental_div_mod, lemma_fundamental_div_mod_converse};
use crate::action::BlockChange;
use crate::blockstate::{compact, is_air_like_view, parse_state, BlockState, BlockStateView};
use crate::indexset::{index_set_insert_full, index_set_into_vec, index_set_items, index_set_new};
use crate::level::string_views;
use crate::palette::{key_index, lemma_key_index_of_distinct};
use crate::schem_template::{first_seen, lemma_first_seen_props};
use crate::text::{append_str, chars_of, nat_text, push_nat, string_from, string_of};

verus! {

/// Name of the directory (under the session root) that holds templates.
pub const TEMPLATE_DIR_NAME: &'static str = "templates";

/// A captured box of blocks. `blocks` holds one palette index per cell, in
/// the order y ascending, then z, then x; its length is `dx * dy * dz`.
#[derive(Clone, Debug)]
pub struct Template {
    pub name: String,
    /// Number of cells along x, y and z.
    pub size: [u32; 3],
    pub palette: Vec<String>,
    pub blocks: Vec<u16>,
}

/// Position in `blocks` of the cell `(x, y, z)` of a box `dx` wide and `dz` deep.
pub open spec fn cell_index(dx: int, dz: int, x: int, y: int, z: int) -> int {
    (y * dz + z) * dx + x
}

pub open spec fn cell_x(dx: int, dz: int, i: int) -> int {
    i % dx
}

pub open spec fn cell_z(dx: int, dz: int, i: int) -> int {
    (i / dx) % dz
}

pub open spec fn cell_y(dx: int, dz: int, i: int) -> int {
    (i / dx) / dz
}

pub open spec fn in_box(dx: int, dy: int, dz: int, x: int, y: int, z: int) -> bool {
    0 <= x < dx && 0 <= y < dy && 0 <= z < dz
}

/// A cell inside the box lies inside `blocks`, and so does each partial sum
/// on the way to its index.
pub proof fn lemma_cell_index_bounds(dx: int, dy: int, dz: int, x: int, y: int, z: int)
    requires
        in_box(dx, dy, dz, x, y, z),
    ensures
        0 <= y * dz <= y * dz + z < dy * dz,
        y * dz + z <= (y * dz + z) * dx,
        0 <= (y * dz + z) * dx <= cell_index(dx, dz, x, y, z) < dx * dy * dz,
{
    assert(0 <= y * dz + z < dy * dz) by (nonlinear_arith)
        requires
            0 <= y < dy,
            0 <= z < dz,
    ;
    assert(0 <= y * dz) by (nonlinear_arith)
        requires
            0 <= y,
            0 <= dz,
    ;
    let q = y * dz + z;
    assert(0 <= q * dx && q * dx + x < dx * dy * dz && q <= q * dx) by (nonlinear_arith)
        requires
            0 <= q < dy * dz,
            0 <= x < dx,
    ;
}

/// The coordinates of a cell are read back from its index.
pub proof fn lemma_cell_coords(dx: int, dy: int, dz: int, x: int, y: int, z: int)
    requires
        in_box(dx, dy, dz, x, y, z),
    ensures
        cell_x(dx, dz, cell_index(dx, dz, x, y, z)) == x,
        cell_y(dx, dz, cell_index(dx, dz, x, y, z)) == y,
        cell_z(dx, dz, cell_index(dx, dz, x, y, z)) == z,
{
    let i = cell_index(dx, dz, x, y, z);
    let q = y * dz + z;
    lemma_fundamental_div_mod_converse(i, dx, q, x);
    lemma_fundamental_div_mod_converse(q, dz, y, z);
}

/// Every index inside `blocks` is the index of a cell of the box.
pub proof fn lemma_index_cell(dx: int, dy: int, dz: int, i: int)
    requires
        dx > 0,
        dz > 0,
        0 <= i < dx * dy * dz,
    ensures
        in_box(dx, dy, dz, cell_x(dx, dz, i), cell_y(dx, dz, i), cell_z(dx, dz, i)),
        cell_index(dx, dz, cell_x(dx, dz, i), cell_y(dx, dz, i), cell_z(dx, dz, i)) == i,
{
    let q = i / dx;
    let x = i % dx;
    lemma_fundamental_div_mod(i, dx);
    let y = q / dz;
    let z = q % dz;
    lemma_fundamental_div_mod(q, dz);
    assert(0 <= q < dy * dz) by (nonlinear_arith)
        requires
            i == dx * q + x,
            0 <= x < dx,
            0 <= i < dx * dy * dz,
            dx > 0,
    ;
    assert(0 <= y < dy) by (nonlinear_arith)
        requires
            q == dz * y + z,
            0 <= z < dz,
            0 <= q < dy * dz,
            dz > 0,
    ;
    assert(cell_index(dx, dz, x, y, z) == i) by (nonlinear_arith)
        requires
            i == dx * q + x,
            q == dz * y + z,
    ;
}

/// Two cells of one box share an index only when they are the same cell.
pub proof fn lemma_cell_index_injective(
    dx: int,
    dy: int,
    dz: int,
    x1: int,
    y1: int,
    z1: int,
    x2: int,
    y2: int,
    z2: int,
)
    requires
        in_box(dx, dy, dz, x1, y1, z1),
        in_box(dx, dy, dz, x2, y2, z2),
        cell_index(dx, dz, x1, y1, z1) == cell_index(dx, dz, x2, y2, z2),
    ensures
        x1 == x2 && y1 == y2 && z1 == z2,
{
    lemma_cell_coords(dx, dy, dz, x1, y1, z1);
    lemma_cell_coords(dx, dy, dz, x2, y2, z2);
}

/// The ways a template's cells can be moved around.
#[derive(Clone, Copy, Debug, PartialEq, Eq, Structural)]
pub enum Remap {
    /// A quarter turn clockwise seen from above.
    Rot90,
    Rot180,
    Rot270,
    FlipX,
    FlipY,
    FlipZ,
}

/// Size of the box after the move.
pub open spec fn remap_dims(k: Remap, dx: int, dy: int, dz: int) -> (int, int, int) {
    match k {
        Remap::Rot90 | Remap::Rot270 => (dz, dy, dx),
        _ => (dx, dy, dz),
    }
}

/// Where the cell `(x, y, z)` goes.
pub open spec fn remap_dest(k: Remap, dx: int, dy: int, dz: int, x: int, y: int, z: int) -> (
    int,
    int,
    int,
) {
    match k {
        Remap::Rot90 => (z, y, dx - 1 - x),
        Remap::Rot180 => (dx - 1 - x, y, dz - 1 - z),
        Remap::Rot270 => (dz - 1 - z, y, x),
        Remap::FlipX => (dx - 1 - x, y, z),
        Remap::FlipY => (x, dy - 1 - y, z),
        Remap::FlipZ => (x, y, dz - 1 - z),
    }
}

/// Which cell of the original box ends up at `(nx, ny, nz)`.
pub open spec fn remap_source(k: Remap, dx: int, dy: int, dz: int, nx: int, ny: int, nz: int) -> (
    int,
    int,
    int,
) {
    match k {
        Remap::Rot90 => (dx - 1 - nz, ny, nx),
        Remap::Rot180 => (dx - 1 - nx, ny, dz - 1 - nz),
        Remap::Rot270 => (nz, ny, dz - 1 - nx),
        Remap::FlipX => (dx - 1 - nx, ny, nz),
        Remap::FlipY => (nx, dy - 1 - ny, nz),
        Remap::FlipZ => (nx, ny, dz - 1 - nz),
    }
}

/// The cells of `b` (a box `dx × dy × dz`) after the move `k`.
pub open spec fn remapped(k: Remap, dx: int, dy: int, dz: int, b: Seq<u16>) -> Seq<u16> {
    let (ndx, ndy, ndz) = remap_dims(k, dx, dy, dz);
    Seq::new(
        b.len(),
        |i: int|
            {
                let s = remap_source(
                    k,
                    dx,
                    dy,
                    dz,
                    cell_x(ndx, ndz, i),
                    cell_y(ndx, ndz, i),
                    cell_z(ndx, ndz, i),
                );
                b[cell_index(dx, dz, s.0, s.1, s.2)]
            },
    )
}

/// A move takes cells of the box into the new box, and back through its source.
proof fn lemma_remap_dest(k: Remap, dx: int, dy: int, dz: int, x: int, y: int, z: int)
    requires
        in_box(dx, dy, dz, x, y, z),
    ensures
        ({
            let (ndx, ndy, ndz) = remap_dims(k, dx, dy, dz);
            let d = remap_dest(k, dx, dy, dz, x, y, z);
            &&& in_box(ndx, ndy, ndz, d.0, d.1, d.2)
            &&& remap_source(k, dx, dy, dz, d.0, d.1, d.2) == (x, y, z)
        }),
{
}

/// Each cell of the new box has its source in the old one, which moves there.
proof fn lemma_remap_source(k: Remap, dx: int, dy: int, dz: int, nx: int, ny: int, nz: int)
    requires
        ({
            let (ndx, ndy, ndz) = remap_dims(k, dx, dy, dz);
            in_box(ndx, ndy, ndz, nx, ny, nz)
        }),
    ensures
        ({
            let s = remap_source(k, dx, dy, dz, nx, ny, nz);
            &&& in_box(dx, dy, dz, s.0, s.1, s.2)
            &&& remap_dest(k, dx, dy, dz, s.0, s.1, s.2) == (nx, ny, nz)
        }),
{
}

proof fn lemma_dims_product(k: Remap, dx: int, dy: int, dz: int)
    ensures
        ({
            let (ndx, ndy, ndz) = remap_dims(k, dx, dy, dz);
            ndx * ndy * ndz == dx * dy * dz
        }),
{
    assert(dz * dy * dx == dx * dy * dz) by (nonlinear_arith);
}

/// Cell `(px, py, pz)` of `b` sits at its destination in `out`.
pub open spec fn placed(
    k: Remap,
    dx: int,
    dy: int,
    dz: int,
    b: Seq<u16>,
    out: Seq<u16>,
    px: int,
    py: int,
    pz: int,
) -> bool {
    let (ndx, ndy, ndz) = remap_dims(k, dx, dy, dz);
    let d = remap_dest(k, dx, dy, dz, px, py, pz);
    out[cell_index(ndx, ndz, d.0, d.1, d.2)] == b[cell_index(dx, dz, px, py, pz)]
}

/// `(py, pz, px)` comes before `(y, z, x)` in y, z, x scan order.
pub open spec fn scan_lt(py: int, pz: int, px: int, y: int, z: int, x: int) -> bool {
    py < y || (py == y && (pz < z || (pz == z && px < x)))
}

/// Every cell before `(y, z, x)` in scan order has been placed.
pub open spec fn placed_upto(
    k: Remap,
    dx: int,
    dy: int,
    dz: int,
    b: Seq<u16>,
    out: Seq<u16>,
    y: int,
    z: int,
    x: int,
) -> bool {
    forall|px: int, py: int, pz: int|
        in_box(dx, dy, dz, px, py, pz) && scan_lt(py, pz, px, y, z, x) ==> #[trigger] placed(
            k,
            dx,
            dy,
            dz,
            b,
            out,
            px,
            py,
            pz,
        )
}

/// Placing cell `(x, y, z)` keeps every earlier cell placed.
proof fn lemma_place_step(
    k: Remap,
    dx: int,
    dy: int,
    dz: int,
    b: Seq<u16>,
    before: Seq<u16>,
    after: Seq<u16>,
    x: int,
    y: int,
    z: int,
)
    requires
        in_box(dx, dy, dz, x, y, z),
        b.len() == dx * dy * dz,
        before.len() == dx * dy * dz,
        placed_upto(k, dx, dy, dz, b, before, y, z, x),
        ({
            let (ndx, ndy, ndz) = remap_dims(k, dx, dy, dz);
            let d = remap_dest(k, dx, dy, dz, x, y, z);
            after == before.update(cell_index(ndx, ndz, d.0, d.1, d.2), b[cell_index(dx, dz, x, y, z)])
        }),
    ensures
        placed_upto(k, dx, dy, dz, b, after, y, z, x + 1),
{
    let (ndx, ndy, ndz) = remap_dims(k, dx, dy, dz);
    let d = remap_dest(k, dx, dy, dz, x, y, z);
    lemma_remap_dest(k, dx, dy, dz, x, y, z);
    lemma_dims_product(k, dx, dy, dz);
    lemma_cell_index_bounds(ndx, ndy, ndz, d.0, d.1, d.2);
    assert forall|px: int, py: int, pz: int|
        in_box(dx, dy, dz, px, py, pz) && scan_lt(py, pz, px, y, z, x + 1) implies #[trigger] placed(
            k,
            dx,
            dy,
            dz,
            b,
            after,
            px,
            py,
            pz,
        ) by {
        let e = remap_dest(k, dx, dy, dz, px, py, pz);
        lemma_remap_dest(k, dx, dy, dz, px, py, pz);
        lemma_cell_index_bounds(ndx, ndy, ndz, e.0, e.1, e.2);
        if !(px == x && py == y && pz == z) {
            assert(placed(k, dx, dy, dz, b, before, px, py, pz));
            if cell_index(ndx, ndz, e.0, e.1, e.2) == cell_index(ndx, ndz, d.0, d.1, d.2) {
                lemma_cell_index_injective(ndx, ndy, ndz, e.0, e.1, e.2, d.0, d.1, d.2);
            }
        }
    }
}

/// Once every cell is placed, the result is the moved box.
proof fn lemma_placed_all(k: Remap, dx: int, dy: int, dz: int, b: Seq<u16>, out: Seq<u16>)
    requires
        dx >= 0,
        dy >= 0,
        dz >= 0,
        b.len() == dx * dy * dz,
        out.len() == dx * dy * dz,
        placed_upto(k, dx, dy, dz, b, out, dy, 0, 0),
    ensures
        out == remapped(k, dx, dy, dz, b),
{
    let (ndx, ndy, ndz) = remap_dims(k, dx, dy, dz);
    lemma_dims_product(k, dx, dy, dz);
    let rm = remapped(k, dx, dy, dz, b);
    assert forall|i: int| 0 <= i < out.len() implies out[i] == rm[i] by {
        assert(ndx > 0 && ndz > 0) by (nonlinear_arith)
            requires
                0 <= i < ndx * ndy * ndz,
                ndx >= 0,
                ndy >= 0,
                ndz >= 0,
        ;
        lemma_index_cell(ndx, ndy, ndz, i);
        let (qx, qy, qz) = (cell_x(ndx, ndz, i), cell_y(ndx, ndz, i), cell_z(ndx, ndz, i));
        lemma_remap_source(k, dx, dy, dz, qx, qy, qz);
        let s = remap_source(k, dx, dy, dz, qx, qy, qz);
        assert(placed(k, dx, dy, dz, b, out, s.0, s.1, s.2));
    }
    assert(out =~= rm);
}

/// `blocks` after moving every cell of a `dx × dy × dz` box by `k`.
fn remap_blocks(k: Remap, dx: u32, dy: u32, dz: u32, blocks: &Vec<u16>) -> (r: Vec<u16>)
    requires
        blocks@.len() == dx * dy * dz,
        dx * dy * dz <= u32::MAX,
    ensures
        r@ == remapped(k, dx as int, dy as int, dz as int, blocks@),
{
    let ghost (ndx, ndy, ndz) = remap_dims(k, dx as int, dy as int, dz as int);
    let ghost b = blocks@;
    let ghost (gx, gy, gz) = (dx as int, dy as int, dz as int);
    let (mdx, mdz): (u32, u32) = match k {
        Remap::Rot90 | Remap::Rot270 => (dz, dx),
        _ => (dx, dz),
    };
    let n: usize = blocks.len();
    proof {
        lemma_dims_product(k, gx, gy, gz);
    }
    let mut out: Vec<u16> = Vec::new();
    let mut f: usize = 0;
    while f < n
        invariant
            f <= n,
            n == blocks@.len(),
            out@.len() == f,
        decreases n - f,
    {
        out.push(0u16);
        f += 1;
    }
    let mut y: u32 = 0;
    while y < dy
        invariant
            y <= dy,
            b == blocks@,
            (gx, gy, gz) == (dx as int, dy as int, dz as int),
            n == b.len(),
            n == gx * gy * gz,
            n == ndx * ndy * ndz,
            gx * gy * gz <= u32::MAX,
            (ndx, ndy, ndz) == remap_dims(k, gx, gy, gz),
            mdx == ndx,
            mdz == ndz,
            out@.len() == n,
            placed_upto(k, gx, gy, gz, b, out@, y as int, 0, 0),
        decreases dy - y,
    {
        let mut z: u32 = 0;
        while z < dz
            invariant
                y < dy,
                z <= dz,
                b == blocks@,
                (gx, gy, gz) == (dx as int, dy as int, dz as int),
                n == b.len(),
                n == gx * gy * gz,
                n == ndx * ndy * ndz,
                gx * gy * gz <= u32::MAX,
                (ndx, ndy, ndz) == remap_dims(k, gx, gy, gz),
                mdx == ndx,
                mdz == ndz,
                out@.len() == n,
                placed_upto(k, gx, gy, gz, b, out@, y as int, z as int, 0),
            decreases dz - z,
        {
            let mut x: u32 = 0;
            while x < dx
                invariant
                    y < dy,
                    z < dz,
                    x <= dx,
                    b == blocks@,
                    (gx, gy, gz) == (dx as int, dy as int, dz as int),
                    n == b.len(),
                    n == gx * gy * gz,
                    n == ndx * ndy * ndz,
                    gx * gy * gz <= u32::MAX,
                    (ndx, ndy, ndz) == remap_dims(k, gx, gy, gz),
                    mdx == ndx,
                    mdz == ndz,
                    out@.len() == n,
                    placed_upto(k, gx, gy, gz, b, out@, y as int, z as int, x as int),
                decreases dx - x,
            {
                proof {
                    lemma_cell_index_bounds(gx, gy, gz, x as int, y as int, z as int);
                }
                let src: usize = ((y * dz + z) * dx + x) as usize;
                let id = blocks[src];
                let (nx, ny, nz): (u32, u32, u32) = match k {
                    Remap::Rot90 => (z, y, dx - 1 - x),
                    Remap::Rot180 => (dx - 1 - x, y, dz - 1 - z),
                    Remap::Rot270 => (dz - 1 - z, y, x),
                    Remap::FlipX => (dx - 1 - x, y, z),
                    Remap::FlipY => (x, dy - 1 - y, z),
                    Remap::FlipZ => (x, y, dz - 1 - z),
                };
                let ghost d = remap_dest(k, gx, gy, gz, x as int, y as int, z as int);
                proof {
                    lemma_remap_dest(k, gx, gy, gz, x as int, y as int, z as int);
                    assert((nx as int, ny as int, nz as int) == d);
                    lemma_cell_index_bounds(ndx, ndy, ndz, d.0, d.1, d.2);
                }
                let dst: usize = ((ny * mdz + nz) * mdx + nx) as usize;
                let ghost before = out@;
                out.set(dst, id);
                proof {
                    lemma_place_step(k, gx, gy, gz, b, before, out@, x as int, y as int, z as int);
                }
                x += 1;
            }
            assert(placed_upto(k, gx, gy, gz, b, out@, y as int, z + 1, 0)) by {
                assert forall|px: int, py: int, pz: int|
                    in_box(gx, gy, gz, px, py, pz) && scan_lt(py, pz, px, y as int, z + 1, 0)
                        implies #[trigger] placed(k, gx, gy, gz, b, out@, px, py, pz) by {
                    assert(scan_lt(py, pz, px, y as int, z as int, dx as int));
                }
            }
            z += 1;
        }
        assert(placed_upto(k, gx, gy, gz, b, out@, y + 1, 0, 0)) by {
            assert forall|px: int, py: int, pz: int|
                in_box(gx, gy, gz, px, py, pz) && scan_lt(py, pz, px, y + 1, 0, 0)
                    implies #[trigger] placed(k, gx, gy, gz, b, out@, px, py, pz) by {
                assert(scan_lt(py, pz, px, y as int, dz as int, 0));
            }
        }
        y += 1;
    }
    proof {
        lemma_placed_all(k, gx, gy, gz, b, out@);
    }
    out
}

/// A moved box read at a cell of the new box gives the source cell.
proof fn lemma_remapped_at(k: Remap, dx: int, dy: int, dz: int, b: Seq<u16>, nx: int, ny: int, nz: int)
    requires
        dx >= 0,
        dy >= 0,
        dz >= 0,
        b.len() == dx * dy * dz,
        ({
            let (ndx, ndy, ndz) = remap_dims(k, dx, dy, dz);
            in_box(ndx, ndy, ndz, nx, ny, nz)
        }),
    ensures
        ({
            let (ndx, ndy, ndz) = remap_dims(k, dx, dy, dz);
            let s = remap_source(k, dx, dy, dz, nx, ny, nz);
            &&& 0 <= cell_index(ndx, ndz, nx, ny, nz) < b.len()
            &&& remapped(k, dx, dy, dz, b)[cell_index(ndx, ndz, nx, ny, nz)] == b[cell_index(
                dx,
                dz,
                s.0,
                s.1,
                s.2,
            )]
        }),
{
    let (ndx, ndy, ndz) = remap_dims(k, dx, dy, dz);
    lemma_dims_product(k, dx, dy, dz);
    lemma_cell_index_bounds(ndx, ndy, ndz, nx, ny, nz);
    lemma_cell_coords(ndx, ndy, ndz, nx, ny, nz);
}

/// Two moves in a row, when they bring every cell back where it was, give
/// back the box.
proof fn lemma_moves_cancel(k1: Remap, k2: Remap, dx: int, dy: int, dz: int, b: Seq<u16>)
    requires
        dx >= 0,
        dy >= 0,
        dz >= 0,
        b.len() == dx * dy * dz,
        ({
            let (ax, ay, az) = remap_dims(k1, dx, dy, dz);
            &&& remap_dims(k2, ax, ay, az) == (dx, dy, dz)
            &&& forall|x: int, y: int, z: int|
                in_box(dx, dy, dz, x, y, z) ==> {
                    let s2 = remap_source(k2, ax, ay, az, x, y, z);
                    remap_source(k1, dx, dy, dz, s2.0, s2.1, s2.2) == (x, y, z)
                }
        }),
    ensures
        ({
            let (ax, ay, az) = remap_dims(k1, dx, dy, dz);
            remapped(k2, ax, ay, az, remapped(k1, dx, dy, dz, b)) == b
        }),
{
    let (ax, ay, az) = remap_dims(k1, dx, dy, dz);
    let b1 = remapped(k1, dx, dy, dz, b);
    let b2 = remapped(k2, ax, ay, az, b1);
    lemma_dims_product(k1, dx, dy, dz);
    assert forall|i: int| 0 <= i < b.len() implies b2[i] == b[i] by {
        assert(dx > 0 && dz > 0) by (nonlinear_arith)
            requires
                0 <= i < dx * dy * dz,
                dx >= 0,
                dy >= 0,
                dz >= 0,
        ;
        lemma_index_cell(dx, dy, dz, i);
        let (qx, qy, qz) = (cell_x(dx, dz, i), cell_y(dx, dz, i), cell_z(dx, dz, i));
        lemma_remapped_at(k2, ax, ay, az, b1, qx, qy, qz);
        lemma_remap_source(k2, ax, ay, az, qx, qy, qz);
        let s2 = remap_source(k2, ax, ay, az, qx, qy, qz);
        lemma_remapped_at(k1, dx, dy, dz, b, s2.0, s2.1, s2.2);
    }
    assert(b2 =~= b);
}

/// Two moves in a row act as a third one.
proof fn lemma_moves_compose(k1: Remap, k2: Remap, k3: Remap, dx: int, dy: int, dz: int, b: Seq<u16>)
    requires
        dx >= 0,
        dy >= 0,
        dz >= 0,
        b.len() == dx * dy * dz,
        ({
            let (ax, ay, az) = remap_dims(k1, dx, dy, dz);
            &&& remap_dims(k2, ax, ay, az) == remap_dims(k3, dx, dy, dz)
            &&& forall|x: int, y: int, z: int|
                in_box(remap_dims(k3, dx, dy, dz).0, dy, remap_dims(k3, dx, dy, dz).2, x, y, z) ==> {
                    let s2 = remap_source(k2, ax, ay, az, x, y, z);
                    remap_source(k1, dx, dy, dz, s2.0, s2.1, s2.2) == remap_source(
                        k3,
                        dx,
                        dy,
                        dz,
                        x,
                        y,
                        z,
                    )
                }
        }),
    ensures
        ({
            let (ax, ay, az) = remap_dims(k1, dx, dy, dz);
            remapped(k2, ax, ay, az, remapped(k1, dx, dy, dz, b)) == remapped(k3, dx, dy, dz, b)
        }),
{
    let (ax, ay, az) = remap_dims(k1, dx, dy, dz);
    let (cx, cy, cz) = remap_dims(k3, dx, dy, dz);
    let b1 = remapped(k1, dx, dy, dz, b);
    let b2 = remapped(k2, ax, ay, az, b1);
    let b3 = remapped(k3, dx, dy, dz, b);
    lemma_dims_product(k1, dx, dy, dz);
    lemma_dims_product(k3, dx, dy, dz);
    assert forall|i: int| 0 <= i < b.len() implies b2[i] == b3[i] by {
        assert(cx > 0 && cz > 0) by (nonlinear_arith)
            requires
                0 <= i < cx * cy * cz,
                cx >= 0,
                cy >= 0,
                cz >= 0,
        ;
        lemma_index_cell(cx, cy, cz, i);
        let (qx, qy, qz) = (cell_x(cx, cz, i), cell_y(cx, cz, i), cell_z(cx, cz, i));
        lemma_remapped_at(k2, ax, ay, az, b1, qx, qy, qz);
        lemma_remapped_at(k3, dx, dy, dz, b, qx, qy, qz);
        lemma_remap_source(k2, ax, ay, az, qx, qy, qz);
        let s2 = remap_source(k2, ax, ay, az, qx, qy, qz);
        lemma_remapped_at(k1, dx, dy, dz, b, s2.0, s2.1, s2.2);
    }
    assert(b2 =~= b3);
}

/// Mirroring twice across the same axis gives back the template's cells.
pub proof fn law_flip_twice(k: Remap, dx: u32, dy: u32, dz: u32, b: Seq<u16>)
    requires
        k == Remap::FlipX || k == Remap::FlipY || k == Remap::FlipZ,
        b.len() == dx * dy * dz,
    ensures
        remapped(k, dx as int, dy as int, dz as int, remapped(k, dx as int, dy as int, dz as int, b))
            == b,
{
    lemma_moves_cancel(k, k, dx as int, dy as int, dz as int, b);
}

/// A half turn twice gives back the template's cells.
pub proof fn law_half_turn_twice(dx: u32, dy: u32, dz: u32, b: Seq<u16>)
    requires
        b.len() == dx * dy * dz,
    ensures
        remapped(
            Remap::Rot180,
            dx as int,
            dy as int,
            dz as int,
            remapped(Remap::Rot180, dx as int, dy as int, dz as int, b),
        ) == b,
{
    lemma_moves_cancel(Remap::Rot180, Remap::Rot180, dx as int, dy as int, dz as int, b);
}

/// A quarter turn then three quarters (the box is `dz` wide after the
/// first) gives back the template's cells, and so does the reverse.
pub proof fn law_quarter_turns_cancel(dx: u32, dy: u32, dz: u32, b: Seq<u16>)
    requires
        b.len() == dx * dy * dz,
    ensures
        remapped(
            Remap::Rot270,
            dz as int,
            dy as int,
            dx as int,
            remapped(Remap::Rot90, dx as int, dy as int, dz as int, b),
        ) == b,
        remapped(
            Remap::Rot90,
            dz as int,
            dy as int,
            dx as int,
            remapped(Remap::Rot270, dx as int, dy as int, dz as int, b),
        ) == b,
{
    lemma_moves_cancel(Remap::Rot90, Remap::Rot270, dx as int, dy as int, dz as int, b);
    lemma_moves_cancel(Remap::Rot270, Remap::Rot90, dx as int, dy as int, dz as int, b);
}

/// Two quarter turns make a half turn.
pub proof fn law_two_quarters_make_half(dx: u32, dy: u32, dz: u32, b: Seq<u16>)
    requires
        b.len() == dx * dy * dz,
    ensures
        remapped(
            Remap::Rot90,
            dz as int,
            dy as int,
            dx as int,
            remapped(Remap::Rot90, dx as int, dy as int, dz as int, b),
        ) == remapped(Remap::Rot180, dx as int, dy as int, dz as int, b),
{
    lemma_moves_compose(Remap::Rot90, Remap::Rot90, Remap::Rot180, dx as int, dy as int, dz as int, b);
}

/// Four quarter turns give back the template's cells.
pub proof fn law_four_quarters(dx: u32, dy: u32, dz: u32, b: Seq<u16>)
    requires
        b.len() == dx * dy * dz,
    ensures
        ({
            let (x, y, z) = (dx as int, dy as int, dz as int);
            let b1 = remapped(Remap::Rot90, x, y, z, b);
            let b2 = remapped(Remap::Rot90, z, y, x, b1);
            let b3 = remapped(Remap::Rot90, x, y, z, b2);
            remapped(Remap::Rot90, z, y, x, b3) == b
        }),
{
    let (x, y, z) = (dx as int, dy as int, dz as int);
    let b1 = remapped(Remap::Rot90, x, y, z, b);
    let b2 = remapped(Remap::Rot90, z, y, x, b1);
    law_two_quarters_make_half(dx, dy, dz, b);
    assert(b2.len() == b.len());
    assert(b2.len() == dx * dy * dz);
    lemma_moves_compose(Remap::Rot90, Remap::Rot90, Remap::Rot180, x, y, z, b2);
    law_half_turn_twice(dx, dy, dz, b);
}

/// The turn a yaw in degrees stands for, once taken modulo 360.
pub open spec fn yaw_turn(yaw: int) -> Option<Remap> {
    let a = yaw % 360;
    if a == 90 {
        Some(Remap::Rot90)
    } else if a == 180 {
        Some(Remap::Rot180)
    } else if a == 270 {
        Some(Remap::Rot270)
    } else {
        None
    }
}

/// The mirror an axis letter stands for, in either case.
pub open spec fn flip_of(axis: char) -> Option<Remap> {
    if axis == 'x' || axis == 'X' {
        Some(Remap::FlipX)
    } else if axis == 'y' || axis == 'Y' {
        Some(Remap::FlipY)
    } else if axis == 'z' || axis == 'Z' {
        Some(Remap::FlipZ)
    } else {
        None
    }
}

/// `yaw` modulo 360, in `0..360`.
fn yaw_mod(yaw: i32) -> (r: i32)
    ensures
        r == yaw as int % 360,
{
    if yaw >= 0 {
        yaw % 360
    } else {
        let m: i32 = -(yaw + 1);
        let t: i32 = m % 360;
        proof {
            lemma_fundamental_div_mod(m as int, 360);
            lemma_fundamental_div_mod_converse(yaw as int, 360, -(m as int / 360) - 1, 359 - t);
        }
        359 - t
    }
}

impl Template {
    pub open spec fn dims(&self) -> (int, int, int) {
        (self.size@[0] as int, self.size@[1] as int, self.size@[2] as int)
    }

    /// A template whose `blocks` cover its box exactly, and whose cell count
    /// fits the `u32` arithmetic it is indexed with.
    pub open spec fn well_formed(&self) -> bool {
        &&& self.blocks@.len() == self.dims().0 * self.dims().1 * self.dims().2
        &&& self.dims().0 * self.dims().1 * self.dims().2 <= u32::MAX
    }

    /// Turn the template about the vertical axis by `yaw` degrees clockwise
    /// seen from above; only multiples of a quarter turn are accepted.
    pub fn rotate_yaw(&mut self, yaw: i32) -> (r: Result<(), String>)
        requires
            old(self).well_formed(),
        ensures
            final(self).name == old(self).name,
            final(self).palette == old(self).palette,
            yaw as int % 360 == 0 ==> r is Ok && final(self).size == old(self).size
                && final(self).blocks@ == old(self).blocks@,
            yaw as int % 360 != 0 && yaw_turn(yaw as int) is None ==> r is Err && r->Err_0@
                == "rotate yaw must be 90, 180, or 270"@ && final(self).size == old(self).size
                && final(self).blocks@ == old(self).blocks@,
            yaw_turn(yaw as int) is Some ==> ({
                let k = yaw_turn(yaw as int)->0;
                let (dx, dy, dz) = old(self).dims();
                &&& r is Ok
                &&& final(self).dims() == remap_dims(k, dx, dy, dz)
                &&& final(self).blocks@ == remapped(k, dx, dy, dz, old(self).blocks@)
            }),
            final(self).well_formed(),
    {
        let a = yaw_mod(yaw);
        if a == 0 {
            return Ok(());
        }
        let k = if a == 90 {
            Remap::Rot90
        } else if a == 180 {
            Remap::Rot180
        } else if a == 270 {
            Remap::Rot270
        } else {
            return Err(string_from("rotate yaw must be 90, 180, or 270"));
        };
        let dx = self.size[0];
        let dy = self.size[1];
        let dz = self.size[2];
        let nb = remap_blocks(k, dx, dy, dz, &self.blocks);
        proof {
            lemma_dims_product(k, dx as int, dy as int, dz as int);
        }
        self.blocks = nb;
        if a != 180 {
            self.size = [dz, dy, dx];
        }
        Ok(())
    }

    /// Mirror the template across `axis` (`x`, `y` or `z`, any case). An
    /// empty template is left as it is whatever the axis.
    pub fn flip(&mut self, axis: char) -> (r: Result<(), String>)
        requires
            old(self).well_formed(),
        ensures
            final(self).name == old(self).name,
            final(self).palette == old(self).palette,
            final(self).size == old(self).size,
            match flip_of(axis) {
                Some(k) => r is Ok && final(self).blocks@ == remapped(
                    k,
                    old(self).dims().0,
                    old(self).dims().1,
                    old(self).dims().2,
                    old(self).blocks@,
                ),
                None => final(self).blocks@ == old(self).blocks@ && (r is Err <==> old(
                    self,
                ).blocks@.len() > 0) && (r is Err ==> r->Err_0@ == "flip axis must be x, y, or z"@),
            },
            final(self).well_formed(),
    {
        let k = if axis == 'x' || axis == 'X' {
            Remap::FlipX
        } else if axis == 'y' || axis == 'Y' {
            Remap::FlipY
        } else if axis == 'z' || axis == 'Z' {
            Remap::FlipZ
        } else {
            if self.blocks.len() > 0 {
                return Err(string_from("flip axis must be x, y, or z"));
            }
            return Ok(());
        };
        let nb = remap_blocks(k, self.size[0], self.size[1], self.size[2], &self.blocks);
        self.blocks = nb;
        Ok(())
    }

    /// Summary lines: name, size, palette length and the number of entities
    /// the template carries.
    pub fn brief_lines(&self, entity_count: usize) -> (r: Vec<String>)
        ensures
            r@.len() == 4,
            r@[0]@ == "template="@ + self.name@,
            r@[1]@ == "size="@ + nat_text(self.size@[0] as nat) + "x"@ + nat_text(
                self.size@[1] as nat,
            ) + "x"@ + nat_text(self.size@[2] as nat),
            r@[2]@ == "palette_n="@ + nat_text(self.palette@.len()),
            r@[3]@ == "entities="@ + nat_text(entity_count as nat),
    {
        let mut a = chars_of("template=");
        append_str(&mut a, self.name.as_str());
        let mut b = chars_of("size=");
        push_nat(&mut b, self.size[0] as u64);
        append_str(&mut b, "x");
        push_nat(&mut b, self.size[1] as u64);
        append_str(&mut b, "x");
        push_nat(&mut b, self.size[2] as u64);
        let mut c = chars_of("palette_n=");
        push_nat(&mut c, self.palette.len() as u64);
        let mut d = chars_of("entities=");
        push_nat(&mut d, entity_count as u64);
        let mut out: Vec<String> = Vec::new();
        out.push(string_of(&a));
        out.push(string_of(&b));
        out.push(string_of(&c));
        out.push(string_of(&d));
        out
    }
}

/// World position of the `i`-th cell (in y, z, x order) of a `dx × ? × dz`
/// template pasted at `(ox, oy, oz)`.
pub open spec fn paste_pos(dx: int, dz: int, ox: i32, oy: i32, oz: i32, i: int) -> (i32, i32, i32) {
    (
        (ox + cell_x(dx, dz, i)) as i32,
        (oy + cell_y(dx, dz, i)) as i32,
        (oz + cell_z(dx, dz, i)) as i32,
    )
}

/// The first `i` cells of a paste: each position with the block state its
/// palette entry names, or the first error met.
pub open spec fn paste_upto(t: Template, ox: i32, oy: i32, oz: i32, i: nat) -> Result<
    Seq<((i32, i32, i32), BlockStateView)>,
    Seq<char>,
>
    decreases i,
{
    if i == 0 {
        Ok(seq![])
    } else {
        match paste_upto(t, ox, oy, oz, (i - 1) as nat) {
            Err(e) => Err(e),
            Ok(v) => {
                let j = i - 1;
                if j >= t.blocks@.len() {
                    Err("template blocks truncated"@)
                } else {
                    let id = t.blocks@[j];
                    if id >= t.palette@.len() {
                        Err("bad palette id "@ + nat_text(id as nat))
                    } else {
                        match parse_state(t.palette@[id as int]@) {
                            Err(e) => Err(e),
                            Ok(st) => Ok(v.push((paste_pos(t.dims().0, t.dims().2, ox, oy, oz, j), st))),
                        }
                    }
                }
            },
        }
    }
}

/// A paste that has not failed lists one entry per cell so far.
proof fn lemma_paste_len(t: Template, ox: i32, oy: i32, oz: i32, i: nat)
    requires
        paste_upto(t, ox, oy, oz, i) is Ok,
    ensures
        paste_upto(t, ox, oy, oz, i)->Ok_0.len() == i,
    decreases i,
{
    if i > 0 {
        lemma_paste_len(t, ox, oy, oz, (i - 1) as nat);
    }
}

/// Once an error is met, later cells keep it.
proof fn lemma_paste_err_sticks(t: Template, ox: i32, oy: i32, oz: i32, i: nat, j: nat)
    requires
        i <= j,
        paste_upto(t, ox, oy, oz, i) is Err,
    ensures
        paste_upto(t, ox, oy, oz, j) == paste_upto(t, ox, oy, oz, i),
    decreases j - i,
{
    if i < j {
        lemma_paste_err_sticks(t, ox, oy, oz, i, (j - 1) as nat);
    }
}

impl Template {
    /// Every cell of the template as pasted with its minimum corner at
    /// `(origin_x, origin_y, origin_z)`, in y, z, x order, with the block
    /// state its palette entry names. Fails on the first cell whose index is
    /// missing, whose palette id is out of range, or whose entry does not
    /// parse.
    pub fn paste_cells(&self, origin_x: i32, origin_y: i32, origin_z: i32) -> (r: Result<
        Vec<((i32, i32, i32), BlockState)>,
        String,
    >)
        requires
            self.dims().0 <= i32::MAX,
            self.dims().1 <= i32::MAX,
            self.dims().2 <= i32::MAX,
            origin_x + self.dims().0 <= i32::MAX + 1,
            origin_y + self.dims().1 <= i32::MAX + 1,
            origin_z + self.dims().2 <= i32::MAX + 1,
        ensures
            ({
                let (dx, dy, dz) = self.dims();
                match paste_upto(*self, origin_x, origin_y, origin_z, (dx * dy * dz) as nat) {
                    Ok(v) => r is Ok && r->Ok_0@.len() == v.len() && forall|i: int|
                        0 <= i < v.len() ==> (#[trigger] r->Ok_0@[i]).0 == v[i].0 && r->Ok_0@[i].1@
                            == v[i].1,
                    Err(e) => r is Err && r->Err_0@ == e,
                }
            }),
    {
        let dx = self.size[0];
        let dy = self.size[1];
        let dz = self.size[2];
        let ghost (gx, gy, gz) = self.dims();
        let ghost t = *self;
        let mut out: Vec<((i32, i32, i32), BlockState)> = Vec::new();
        let mut i: usize = 0;
        let mut y: u32 = 0;
        assert(0 * gz * gx == 0) by (nonlinear_arith);
        while y < dy
            invariant
                y <= dy,
                t == *self,
                self.dims() == (gx, gy, gz),
                (gx, gy, gz) == (dx as int, dy as int, dz as int),
                origin_x + gx <= i32::MAX + 1,
                gx <= i32::MAX && gy <= i32::MAX && gz <= i32::MAX,
                origin_y + gy <= i32::MAX + 1,
                origin_z + gz <= i32::MAX + 1,
                i == y * gz * gx,
                paste_upto(t, origin_x, origin_y, origin_z, i as nat) is Ok,
                out@.len() == i,
                forall|j: int|
                    0 <= j < i ==> (#[trigger] out@[j]).0 == paste_upto(
                        t,
                        origin_x,
                        origin_y,
                        origin_z,
                        i as nat,
                    )->Ok_0[j].0 && out@[j].1@ == paste_upto(t, origin_x, origin_y, origin_z, i as nat)->Ok_0[j].1,
            decreases dy - y,
        {
            let mut z: u32 = 0;
            while z < dz
                invariant
                    y < dy,
                    z <= dz,
                    t == *self,
                    self.dims() == (gx, gy, gz),
                    (gx, gy, gz) == (dx as int, dy as int, dz as int),
                    origin_x + gx <= i32::MAX + 1,
                gx <= i32::MAX && gy <= i32::MAX && gz <= i32::MAX,
                    origin_y + gy <= i32::MAX + 1,
                    origin_z + gz <= i32::MAX + 1,
                    i == (y * gz + z) * gx,
                    paste_upto(t, origin_x, origin_y, origin_z, i as nat) is Ok,
                    out@.len() == i,
                    forall|j: int|
                        0 <= j < i ==> (#[trigger] out@[j]).0 == paste_upto(
                            t,
                            origin_x,
                            origin_y,
                            origin_z,
                            i as nat,
                        )->Ok_0[j].0 && out@[j].1@ == paste_upto(t, origin_x, origin_y, origin_z, i as nat)->Ok_0[j].1,
                decreases dz - z,
            {
                let mut x: u32 = 0;
                while x < dx
                    invariant
                        y < dy,
                        z < dz,
                        x <= dx,
                        t == *self,
                        self.dims() == (gx, gy, gz),
                        (gx, gy, gz) == (dx as int, dy as int, dz as int),
                        origin_x + gx <= i32::MAX + 1,
                gx <= i32::MAX && gy <= i32::MAX && gz <= i32::MAX,
                        origin_y + gy <= i32::MAX + 1,
                        origin_z + gz <= i32::MAX + 1,
                        i == (y * gz + z) * gx + x,
                        paste_upto(t, origin_x, origin_y, origin_z, i as nat) is Ok,
                        out@.len() == i,
                        forall|j: int|
                            0 <= j < i ==> (#[trigger] out@[j]).0 == paste_upto(
                                t,
                                origin_x,
                                origin_y,
                                origin_z,
                                i as nat,
                            )->Ok_0[j].0 && out@[j].1@ == paste_upto(
                                t,
                                origin_x,
                                origin_y,
                                origin_z,
                                i as nat,
                            )->Ok_0[j].1,
                    decreases dx - x,
                {
                    proof {
                        lemma_cell_coords(gx, gy, gz, x as int, y as int, z as int);
                    }
                    let ghost total = (gx * gy * gz) as nat;
                    if i >= self.blocks.len() {
                        proof {
                            lemma_cell_index_bounds(gx, gy, gz, x as int, y as int, z as int);
                            assert(paste_upto(t, origin_x, origin_y, origin_z, (i + 1) as nat)
                                == Err::<Seq<((i32, i32, i32), BlockStateView)>, Seq<char>>(
                                "template blocks truncated"@,
                            ));
                            lemma_paste_err_sticks(t, origin_x, origin_y, origin_z, (i + 1) as nat, total);
                        }
                        return Err(string_from("template blocks truncated"));
                    }
                    let id = self.blocks[i];
                    if id as usize >= self.palette.len() {
                        let mut m = chars_of("bad palette id ");
                        push_nat(&mut m, id as u64);
                        proof {
                            lemma_cell_index_bounds(gx, gy, gz, x as int, y as int, z as int);
                            assert(paste_upto(t, origin_x, origin_y, origin_z, (i + 1) as nat)
                                == Err::<Seq<((i32, i32, i32), BlockStateView)>, Seq<char>>(m@));
                            lemma_paste_err_sticks(t, origin_x, origin_y, origin_z, (i + 1) as nat, total);
                        }
                        return Err(string_of(&m));
                    }
                    let st = match BlockState::parse(self.palette[id as usize].as_str()) {
                        Ok(st) => st,
                        Err(e) => {
                            proof {
                                lemma_cell_index_bounds(gx, gy, gz, x as int, y as int, z as int);
                                assert(paste_upto(t, origin_x, origin_y, origin_z, (i + 1) as nat)
                                    == Err::<Seq<((i32, i32, i32), BlockStateView)>, Seq<char>>(e@));
                                lemma_paste_err_sticks(t, origin_x, origin_y, origin_z, (i + 1) as nat, total);
                            }
                            return Err(e);
                        },
                    };
                    let pos: (i32, i32, i32) = (origin_x + x as i32, origin_y + y as i32, origin_z + z as i32);
                    let ghost prev = paste_upto(t, origin_x, origin_y, origin_z, i as nat)->Ok_0;
                    proof {
                        lemma_paste_len(t, origin_x, origin_y, origin_z, i as nat);
                    }
                    out.push((pos, st));
                    proof {
                        let nxt = paste_upto(t, origin_x, origin_y, origin_z, (i + 1) as nat);
                        assert(pos == paste_pos(gx, gz, origin_x, origin_y, origin_z, i as int));
                        assert(nxt == Ok::<Seq<((i32, i32, i32), BlockStateView)>, Seq<char>>(
                            prev.push((pos, st@)),
                        ));
                    }
                    i += 1;
                    x += 1;
                }
                assert(i == (y * gz + z + 1) * gx) by (nonlinear_arith)
                    requires
                        i == (y * gz + z) * gx + x,
                        x == gx,
                ;
                z += 1;
            }
            assert(i == (y + 1) * gz * gx) by (nonlinear_arith)
                requires
                    i == (y * gz + z) * gx,
                    z == gz,
            ;
            y += 1;
        }
        assert(i == gx * gy * gz) by (nonlinear_arith)
            requires
                i == y * gz * gx,
                y == gy,
        ;
        proof {
            lemma_paste_len(t, origin_x, origin_y, origin_z, i as nat);
        }
        Ok(out)
    }
}

/// The palette key a captured block gets: air-like blocks all become plain
/// air, others their compact text.
pub open spec fn capture_key(b: BlockStateView) -> Seq<char> {
    if is_air_like_view(b) {
        "minecraft:air"@
    } else {
        compact(b)
    }
}

pub open spec fn capture_keys(states: Seq<BlockState>) -> Seq<Seq<char>> {
    Seq::new(states.len(), |i: int| capture_key(states[i]@))
}

/// Capture the blocks of the box between two corners, given the block
/// states read from it in y, z, x order. Boxes of more than 64³ cells are
/// refused. The palette starts with air and takes each block's key when
/// first met.
pub fn capture_blocks(
    name: &str,
    x1: i32,
    y1: i32,
    z1: i32,
    x2: i32,
    y2: i32,
    z2: i32,
    states: &Vec<BlockState>,
) -> (r: Result<Template, String>)
    requires
        ({
            let dx = if x1 <= x2 { x2 - x1 + 1 } else { x1 - x2 + 1 };
            let dy = if y1 <= y2 { y2 - y1 + 1 } else { y1 - y2 + 1 };
            let dz = if z1 <= z2 { z2 - z1 + 1 } else { z1 - z2 + 1 };
            &&& dx <= i32::MAX && dy <= i32::MAX && dz <= i32::MAX
            &&& dx * dy * dz <= 64 * 64 * 64 ==> states@.len() == dx * dy * dz
        }),
    ensures
        ({
            let dx = if x1 <= x2 { x2 - x1 + 1 } else { x1 - x2 + 1 };
            let dy = if y1 <= y2 { y2 - y1 + 1 } else { y1 - y2 + 1 };
            let dz = if z1 <= z2 { z2 - z1 + 1 } else { z1 - z2 + 1 };
            if dx * dy * dz > 64 * 64 * 64 {
                r is Err && r->Err_0@ == "template too large (max 64^3)"@
            } else {
                let keys = capture_keys(states@);
                let dense = first_seen(seq!["minecraft:air"@] + keys);
                &&& r is Ok
                &&& r->Ok_0.name@ == name@
                &&& r->Ok_0.size@ == seq![dx as u32, dy as u32, dz as u32]
                &&& string_views(r->Ok_0.palette@) == dense
                &&& r->Ok_0.blocks@ == Seq::new(keys.len(), |i: int| key_index(dense, keys[i]) as u16)
            }
        }),
{
    let (min_x, max_x) = if x1 <= x2 { (x1, x2) } else { (x2, x1) };
    let (min_y, max_y) = if y1 <= y2 { (y1, y2) } else { (y2, y1) };
    let (min_z, max_z) = if z1 <= z2 { (z1, z2) } else { (z2, z1) };
    let dx = (max_x - min_x + 1) as u32;
    let dy = (max_y - min_y + 1) as u32;
    let dz = (max_z - min_z + 1) as u32;
    assert((dx as int) * (dy as int) <= 0x1_0000_0000_0000_0000) by (nonlinear_arith)
        requires
            dx <= 0x8000_0000,
            dy <= 0x8000_0000,
    ;
    assert((dx as int) * (dy as int) * (dz as int) <= 0x1_0000_0000_0000_0000_0000_0000) by (nonlinear_arith)
        requires
            (dx as int) * (dy as int) <= 0x1_0000_0000_0000_0000,
            dz <= 0x8000_0000,
    ;
    if dx as u128 * dy as u128 * dz as u128 > 64 * 64 * 64 {
        return Err(string_from("template too large (max 64^3)"));
    }
    let ghost keys = capture_keys(states@);
    let ghost all = seq!["minecraft:air"@] + keys;
    let mut set = index_set_new();
    let _ = index_set_insert_full(&mut set, string_from("minecraft:air"));
    assert(first_seen(all.take(1)) =~= seq!["minecraft:air"@]) by {
        assert(all.take(1).drop_last() =~= Seq::<Seq<char>>::empty());
        assert(first_seen(Seq::<Seq<char>>::empty()) =~= Seq::<Seq<char>>::empty());
        assert(all.take(1).last() == "minecraft:air"@);
    }
    let mut blocks: Vec<u16> = Vec::new();
    let mut i: usize = 0;
    while i < states.len()
        invariant
            i <= states@.len(),
            keys == capture_keys(states@),
            all == seq!["minecraft:air"@] + keys,
            index_set_items(set) == first_seen(all.take(i + 1)),
            blocks@.len() == i,
            forall|j: int| 0 <= j < i ==> #[trigger] blocks@[j] == key_index(
                first_seen(all.take(i + 1)),
                keys[j],
            ) as u16,
        decreases states.len() - i,
    {
        let b = &states[i];
        let key = if b.is_air_like() {
            string_from("minecraft:air")
        } else {
            b.to_compact()
        };
        assert(key@ == keys[i as int]);
        let ghost before = first_seen(all.take(i + 1));
        assert(all.take(i + 2).drop_last() =~= all.take(i + 1));
        assert(all.take(i + 2).last() == keys[i as int]);
        let (idx, _) = index_set_insert_full(&mut set, key);
        let ghost after = first_seen(all.take(i + 2));
        proof {
            lemma_first_seen_props(all.take(i + 2));
            lemma_first_seen_props(all.take(i + 1));
            lemma_key_index_of_distinct(after, idx as int);
            assert forall|j: int| 0 <= j < i implies key_index(before, keys[j]) == key_index(
                after,
                keys[j],
            ) by {
                assert(all.take(i + 1)[j + 1] == keys[j]);
                assert(before.contains(all.take(i + 1)[j + 1]));
                let q = choose|q: int| 0 <= q < before.len() && before[q] == keys[j];
                lemma_key_index_of_distinct(before, q);
                assert(after[q] == before[q]);
                lemma_key_index_of_distinct(after, q);
            }
        }
        blocks.push(idx as u16);
        i += 1;
    }
    assert(all.take(states@.len() + 1int) =~= all);
    let pal = index_set_into_vec(set);
    assert(string_views(pal@) =~= first_seen(all));
    assert(blocks@ =~= Seq::new(keys.len(), |k: int| key_index(first_seen(all), keys[k]) as u16));
    Ok(Template { name: string_from(name), size: [dx, dy, dz], palette: pal, blocks })
}

/// Capturing keeps every cell's block: the captured palette holds each
/// cell's key (plain air for air-like blocks, else the compact state), and
/// where the palette fits `u16` indices, the cell's index points at it.
pub proof fn law_capture_keeps_blocks(states: Seq<BlockState>)
    ensures
        ({
            let keys = capture_keys(states);
            let dense = first_seen(seq!["minecraft:air"@] + keys);
            forall|i: int|
                0 <= i < states.len() ==> {
                    let k = key_index(dense, #[trigger] keys[i]);
                    &&& 0 <= k < dense.len()
                    &&& dense[k] == capture_key(states[i]@)
                    &&& (dense.len() <= 0x10000 ==> dense[(k as u16) as int] == capture_key(states[i]@))
                }
        }),
{
    let keys = capture_keys(states);
    let all = seq!["minecraft:air"@] + keys;
    let dense = first_seen(all);
    lemma_first_seen_props(all);
    assert forall|i: int| 0 <= i < states.len() implies {
        let k = key_index(dense, #[trigger] keys[i]);
        &&& 0 <= k < dense.len()
        &&& dense[k] == capture_key(states[i]@)
    } by {
        assert(all[i + 1] == keys[i]);
        assert(dense.contains(all[i + 1]));
        let q = choose|q: int| 0 <= q < dense.len() && dense[q] == keys[i];
        lemma_key_index_of_distinct(dense, q);
    }
}

/// A template of `size` fits with its minimum corner at `origin`: every cell
/// it covers has `i32` coordinates.
pub open spec fn paste_fits_spec(size: Seq<u32>, origin: (i32, i32, i32)) -> bool {
    &&& size[0] <= i32::MAX && origin.0 + size[0] <= i32::MAX + 1
    &&& size[1] <= i32::MAX && origin.1 + size[1] <= i32::MAX + 1
    &&& size[2] <= i32::MAX && origin.2 + size[2] <= i32::MAX + 1
}

/// Whether a template of `size` fits at `origin` (see `paste_fits_spec`).
pub fn paste_fits(size: [u32; 3], origin: (i32, i32, i32)) -> (r: bool)
    ensures
        r == paste_fits_spec(size@, origin),
{
    let fits = |o: i32, d: u32| -> (b: bool)
        ensures
            b == (d <= i32::MAX && o + d <= i32::MAX + 1),
        { d <= 0x7fff_ffff && (o as i64 + d as i64) <= 0x8000_0000 };
    fits(origin.0, size[0]) && fits(origin.1, size[1]) && fits(origin.2, size[2])
}

/// The changes a paste makes: one for each cell whose current state
/// (`befores`, cell by cell) differs from the pasted one, in cell order.
pub open spec fn paste_changes_spec(
    cells: Seq<((i32, i32, i32), BlockStateView)>,
    befores: Seq<BlockStateView>,
) -> Seq<(i32, i32, i32, BlockStateView, BlockStateView)>
    decreases cells.len(),
{
    if cells.len() == 0 {
        seq![]
    } else {
        let n = cells.len() - 1;
        let prev = paste_changes_spec(cells.drop_last(), befores);
        let ((x, y, z), after) = cells[n];
        if befores[n] != after {
            prev.push((x, y, z, befores[n], after))
        } else {
            prev
        }
    }
}

/// Pairs the pasted cells with the states they replace and keeps the cells
/// that change.
pub fn paste_changes(cells: &Vec<((i32, i32, i32), BlockState)>, befores: &Vec<BlockState>) -> (r: Vec<
    BlockChange,
>)
    requires
        befores@.len() == cells@.len(),
    ensures
        r@.map_values(|c: BlockChange| (c.x, c.y, c.z, c.before@, c.after@)) == paste_changes_spec(
            cells@.map_values(|c: ((i32, i32, i32), BlockState)| (c.0, c.1@)),
            befores@.map_values(|b: BlockState| b@),
        ),
{
    let ghost cv = cells@.map_values(|c: ((i32, i32, i32), BlockState)| (c.0, c.1@));
    let ghost bv = befores@.map_values(|b: BlockState| b@);
    let mut out: Vec<BlockChange> = Vec::new();
    let mut i: usize = 0;
    assert(cv.take(0) =~= Seq::<((i32, i32, i32), BlockStateView)>::empty());
    while i < cells.len()
        invariant
            i <= cells@.len(),
            befores@.len() == cells@.len(),
            cv == cells@.map_values(|c: ((i32, i32, i32), BlockState)| (c.0, c.1@)),
            bv == befores@.map_values(|b: BlockState| b@),
            out@.map_values(|c: BlockChange| (c.x, c.y, c.z, c.before@, c.after@)) == paste_changes_spec(
                cv.take(i as int),
                bv,
            ),
        decreases cells.len() - i,
    {
        assert(cv.take(i + 1).drop_last() =~= cv.take(i as int));
        assert(cv.take(i + 1)[i as int] == cv[i as int]);
        let ((x, y, z), after) = &cells[i];
        let before = &befores[i];
        let ghost o = out@.map_values(|c: BlockChange| (c.x, c.y, c.z, c.before@, c.after@));
        if !before.same(after) {
            out.push(BlockChange { x: *x, y: *y, z: *z, before: before.duplicate(), after: after.duplicate() });
            assert(out@.map_values(|c: BlockChange| (c.x, c.y, c.z, c.before@, c.after@)) =~= o.push(
                (*x, *y, *z, before@, after@),
            ));
        }
        i += 1;
    }
    assert(cv.take(cells@.len() as int) =~= cv);
    out
}

} // verus!
