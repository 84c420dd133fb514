//! Heightmap smoothing: each column's surface height becomes the rounded
//! mean of its neighbourhood, and columns are raised or lowered to match.

use vstd::prelude::*;
use crate::action::BlockChange;
use crate::blockstate::{is_air_like_view, BlockState, BlockStateView};
use crate::ops::Aabb;
use crate::world_plan::{change_view, changes_view, ChangeV};

verus! {

/// `h[base] + … + h[base + n - 1]`.
pub open spec fn row_sum(h: Seq<i32>, base: int, n: nat) -> int
    decreases n,
{
    if n == 0 {
        0
    } else {
        row_sum(h, base, (n - 1) as nat) + h[base + n - 1]
    }
}

/// The sum of heights over columns `lo_i..lo_i+ni` of rows `lo_j..lo_j+nj`
/// of a grid `w` columns wide.
pub open spec fn window_sum_spec(h: Seq<i32>, w: int, lo_i: int, ni: nat, lo_j: int, nj: nat) -> int
    decreases nj,
{
    if nj == 0 {
        0
    } else {
        window_sum_spec(h, w, lo_i, ni, lo_j, (nj - 1) as nat) + row_sum(
            h,
            (lo_j + nj - 1) * w + lo_i,
            ni,
        )
    }
}

proof fn lemma_row_sum_bound(h: Seq<i32>, base: int, n: nat)
    requires
        0 <= base,
        base + n <= h.len(),
    ensures
        -(n as int) * 0x8000_0000 <= row_sum(h, base, n) <= (n as int) * 0x8000_0000,
    decreases n,
{
    if n > 0 {
        lemma_row_sum_bound(h, base, (n - 1) as nat);
    }
}

/// Sums a window of the height grid (see `window_sum_spec`).
fn window_sum(h: &Vec<i32>, w: usize, lo_i: usize, ni: usize, lo_j: usize, nj: usize) -> (r: i128)
    requires
        w >= 1,
        ni <= w,
        lo_i + ni <= w,
        (lo_j + nj) * w <= h@.len(),
        h@.len() <= usize::MAX,
    ensures
        r == window_sum_spec(h@, w as int, lo_i as int, ni as nat, lo_j as int, nj as nat),
        -((nj as int) * (ni as int) * 0x8000_0000) <= r <= (nj as int) * (ni as int) * 0x8000_0000,
{
    let mut s: i128 = 0;
    let mut t: usize = 0;
    while t < nj
        invariant
            t <= nj,
            w >= 1,
            ni <= w,
            lo_i + ni <= w,
            (lo_j + nj) * w <= h@.len(),
            h@.len() <= usize::MAX,
            s == window_sum_spec(h@, w as int, lo_i as int, ni as nat, lo_j as int, t as nat),
            -((t as int) * (ni as int) * 0x8000_0000) <= s <= (t as int) * (ni as int) * 0x8000_0000,
        decreases nj - t,
    {
        proof {
            assert((lo_j + t + 1) * w <= (lo_j + nj) * w) by (nonlinear_arith)
                requires
                    t < nj,
            ;
            assert((lo_j + t) * w + w == (lo_j + t + 1) * w) by (nonlinear_arith);
            assert((lo_j + t) * w + w <= h@.len());
            assert(lo_j + t <= (lo_j + t) * w) by (nonlinear_arith)
                requires
                    w >= 1,
            ;
        }
        let base: usize = (lo_j + t) * w + lo_i;
        assert(base + ni <= h@.len());
        let mut rsum: i128 = 0;
        let mut u: usize = 0;
        while u < ni
            invariant
                u <= ni,
                base + ni <= h@.len(),
                h@.len() <= usize::MAX,
                rsum == row_sum(h@, base as int, u as nat),
                -(u as int) * 0x8000_0000 <= rsum <= (u as int) * 0x8000_0000,
            decreases ni - u,
        {
            rsum = rsum + h[base + u] as i128;
            u += 1;
        }
        proof {
            assert(u == ni);
            assert((t + 1) * ni * 0x8000_0000 == t * ni * 0x8000_0000 + ni * 0x8000_0000)
                by (nonlinear_arith);
            assert((t + 1) * ni <= nj * w) by (nonlinear_arith)
                requires
                    t < nj,
                    ni <= w,
            ;
            assert(nj * w <= (lo_j + nj) * w) by (nonlinear_arith);
            assert((t + 1) * ni * 0x8000_0000 <= 0xffff_ffff_ffff_ffff * 0x8000_0000) by (nonlinear_arith)
                requires
                    (t + 1) * ni <= 0xffff_ffff_ffff_ffff,
            ;
            assert(window_sum_spec(h@, w as int, lo_i as int, ni as nat, lo_j as int, (t + 1) as nat)
                == s + rsum);
            assert(s + rsum <= (t + 1) * ni * 0x8000_0000);
            assert(s + rsum >= -((t + 1) * ni * 0x8000_0000));
            assert((t + 1) * ni * 0x8000_0000 <= 0xffff_ffff_ffff_ffff * 0x8000_0000);
        }
        s = s + rsum;
        t += 1;
    }
    s
}

/// The first index of a window of radius `k` around `i`.
pub open spec fn win_lo(i: int, k: int) -> int {
    if i - k < 0 {
        0
    } else {
        i - k
    }
}

/// The last index of a window of radius `k` around `i` in `0..m`.
pub open spec fn win_hi(i: int, k: int, m: int) -> int {
    if i + k > m - 1 {
        m - 1
    } else {
        i + k
    }
}

/// `s / n` rounded to the nearest integer, halves away from zero.
pub open spec fn round_mean(s: int, n: int) -> int {
    if s >= 0 {
        (2 * s + n) / (2 * n)
    } else {
        -((-2 * s + n) / (2 * n))
    }
}

pub open spec fn clamp_to(v: int, a: int, b: int) -> int {
    if v < a {
        a
    } else if v > b {
        b
    } else {
        v
    }
}

/// The smoothed height of column `c` (column `c % w` of row `c / w`): the
/// rounded mean of the heights within `k` columns and rows of it inside the
/// grid, kept within `a..=b`.
pub open spec fn smooth_at(h: Seq<i32>, w: int, d: int, k: int, a: int, b: int, c: int) -> int {
    let i = c % w;
    let j = c / w;
    let li = win_lo(i, k);
    let lj = win_lo(j, k);
    let ni = win_hi(i, k, w) - li + 1;
    let nj = win_hi(j, k, d) - lj + 1;
    clamp_to(round_mean(window_sum_spec(h, w, li, ni as nat, lj, nj as nat), ni * nj), a, b)
}

/// One smoothing pass over a `w` by `d` height grid.
pub open spec fn smooth_step(h: Seq<i32>, w: int, d: int, k: int, a: int, b: int) -> Seq<i32> {
    Seq::new((w * d) as nat, |c: int| smooth_at(h, w, d, k, a, b, c) as i32)
}

/// `t` smoothing passes.
pub open spec fn smooth_iter(h: Seq<i32>, w: int, d: int, k: int, a: int, b: int, t: nat) -> Seq<i32>
    decreases t,
{
    if t == 0 {
        h
    } else {
        smooth_step(smooth_iter(h, w, d, k, a, b, (t - 1) as nat), w, d, k, a, b)
    }
}

fn smooth_pass(h: &Vec<i32>, w: usize, d: usize, k: i32, a: i32, b: i32) -> (r: Vec<i32>)
    requires
        w >= 1,
        d >= 1,
        k >= 1,
        a <= b,
        h@.len() == w * d,
    ensures
        r@ == smooth_step(h@, w as int, d as int, k as int, a as int, b as int),
{
    let n_cells: usize = h.len();
    let ku: usize = k as usize;
    let mut out: Vec<i32> = Vec::new();
    let mut c: usize = 0;
    while c < n_cells
        invariant
            w >= 1,
            d >= 1,
            k >= 1,
            ku == k,
            a <= b,
            n_cells == w * d,
            h@.len() == w * d,
            c <= n_cells,
            out@.len() == c,
            forall|q: int|
                0 <= q < c ==> out@[q] == smooth_at(h@, w as int, d as int, k as int, a as int, b as int, q) as i32,
        decreases n_cells - c,
    {
        let i = c % w;
        let j = c / w;
        proof {
            assert(j < d) by (nonlinear_arith)
                requires
                    c < w * d,
                    j == c / w,
                    w >= 1,
            ;
        }
        let li: usize = if i >= ku {
            i - ku
        } else {
            0
        };
        let hi: usize = if ku > w - 1 - i {
            w - 1
        } else {
            i + ku
        };
        let lj: usize = if j >= ku {
            j - ku
        } else {
            0
        };
        let hj: usize = if ku > d - 1 - j {
            d - 1
        } else {
            j + ku
        };
        let ni: usize = hi - li + 1;
        let nj: usize = hj - lj + 1;
        proof {
            assert(lj + nj <= d);
            assert((lj + nj) * w <= w * d) by (nonlinear_arith)
                requires
                    lj + nj <= d,
            ;
            assert(ni * nj <= w * d) by (nonlinear_arith)
                requires
                    ni <= w,
                    nj <= d,
            ;
            assert(ni * nj >= 1) by (nonlinear_arith)
                requires
                    ni >= 1,
                    nj >= 1,
            ;
        }
        let s = window_sum(h, w, li, ni, lj, nj);
        let n: i128 = ni as i128 * nj as i128;
        proof {
            assert(nj * ni == n) by (nonlinear_arith)
                requires
                    n == ni * nj,
            ;
            assert(n <= 0xffff_ffff_ffff_ffff);
        }
        let mean: i128 = if s >= 0 {
            (2 * s + n) / (2 * n)
        } else {
            -((-2 * s + n) / (2 * n))
        };
        let v: i32 = if mean < a as i128 {
            a
        } else if mean > b as i128 {
            b
        } else {
            mean as i32
        };
        out.push(v);
        proof {
            assert(out@[c as int] == smooth_at(h@, w as int, d as int, k as int, a as int, b as int, c as int) as i32);
        }
        c += 1;
    }
    assert(out@ =~= smooth_step(h@, w as int, d as int, k as int, a as int, b as int));
    out
}

/// Smooths a `w` by `d` grid of column heights (row by row, `w` columns to
/// a row): `iterations` passes (at least one), each giving every column the
/// mean of the heights within `kernel` (at least 1) columns and rows of it,
/// rounded half away from zero and kept within `a..=b`.
pub fn smooth_heights(h: &Vec<i32>, w: usize, d: usize, iterations: u32, kernel: i32, a: i32, b: i32) -> (r:
    Vec<i32>)
    requires
        w >= 1,
        d >= 1,
        a <= b,
        h@.len() == w * d,
    ensures
        r@ == smooth_iter(
            h@,
            w as int,
            d as int,
            if kernel < 1 { 1 } else { kernel as int },
            a as int,
            b as int,
            if iterations < 1 { 1 } else { iterations as nat },
        ),
{
    let k: i32 = if kernel < 1 {
        1
    } else {
        kernel
    };
    let iters: u32 = if iterations < 1 {
        1
    } else {
        iterations
    };
    let mut cur = smooth_pass(h, w, d, k, a, b);
    assert(smooth_iter(h@, w as int, d as int, k as int, a as int, b as int, 0) == h@);
    let mut t: u32 = 1;
    while t < iters
        invariant
            1 <= t <= iters,
            w >= 1,
            d >= 1,
            k >= 1,
            a <= b,
            cur@ == smooth_iter(h@, w as int, d as int, k as int, a as int, b as int, t as nat),
            cur@.len() == w * d,
        decreases iters - t,
    {
        cur = smooth_pass(&cur, w, d, k, a, b);
        t += 1;
    }
    cur
}

pub open spec fn column_view(col: Vec<BlockState>) -> Seq<BlockStateView> {
    col@.map_values(|b: BlockState| b@)
}

/// The index of the highest block of a column that is not air-like, or -1.
pub open spec fn column_top(col: Seq<BlockStateView>) -> int
    decreases col.len(),
{
    if col.len() == 0 {
        -1
    } else if !is_air_like_view(col.last()) {
        col.len() - 1
    } else {
        column_top(col.drop_last())
    }
}

pub open spec fn plain_stone() -> BlockStateView {
    BlockStateView { name: "minecraft:stone"@, props: seq![] }
}

pub open spec fn plain_air() -> BlockStateView {
    BlockStateView { name: "minecraft:air"@, props: seq![] }
}

/// The block a raised column is filled with: its top block, or stone.
pub open spec fn column_fill(col: Seq<BlockStateView>) -> BlockStateView {
    if column_top(col) >= 0 {
        col[column_top(col)]
    } else {
        plain_stone()
    }
}

/// Changes over the cells `f..f+n` of a column: to `Some(fill)` where a cell
/// differs from it, or to air where a cell is not air-like.
pub open spec fn range_changes(
    col: Seq<BlockStateView>,
    x: i32,
    z: i32,
    min_y: int,
    f: int,
    n: nat,
    fill: Option<BlockStateView>,
) -> Seq<ChangeV>
    decreases n,
{
    if n == 0 {
        seq![]
    } else {
        let prev = range_changes(col, x, z, min_y, f, (n - 1) as nat, fill);
        let idx = f + n - 1;
        let b = col[idx];
        match fill {
            Some(t) => if b != t {
                prev.push((x, (min_y + idx) as i32, z, b, t))
            } else {
                prev
            },
            None => if !is_air_like_view(b) {
                prev.push((x, (min_y + idx) as i32, z, b, plain_air()))
            } else {
                prev
            },
        }
    }
}

/// What smoothing does to one column whose surface moves from `old` to `new`:
/// raising fills the cells above the old surface, lowering clears the cells
/// above the new one.
pub open spec fn column_changes(col: Seq<BlockStateView>, x: i32, z: i32, min_y: int, old: int, new: int) -> Seq<
    ChangeV,
> {
    if new > old {
        range_changes(col, x, z, min_y, old + 1 - min_y, (new - old) as nat, Some(column_fill(col)))
    } else if new < old {
        range_changes(col, x, z, min_y, new + 1 - min_y, (old - new) as nat, None)
    } else {
        seq![]
    }
}

pub open spec fn box_w(b: Aabb) -> int {
    b.max_x - b.min_x + 1
}

pub open spec fn box_d(b: Aabb) -> int {
    b.max_z - b.min_z + 1
}

/// The surface heights of the columns: the highest non-air cell, or one
/// below the box.
pub open spec fn surface_heights(b: Aabb, cols: Seq<Vec<BlockState>>) -> Seq<i32> {
    Seq::new(cols.len(), |c: int| (b.min_y + column_top(column_view(cols[c]))) as i32)
}

/// The changes of the first `t` columns, in column order.
pub open spec fn plan_upto(b: Aabb, cols: Seq<Vec<BlockState>>, new_h: Seq<i32>, t: nat) -> Seq<ChangeV>
    decreases t,
{
    if t == 0 {
        seq![]
    } else {
        let c = t - 1;
        plan_upto(b, cols, new_h, (t - 1) as nat) + column_changes(
            column_view(cols[c]),
            (b.min_x + c % box_w(b)) as i32,
            (b.min_z + c / box_w(b)) as i32,
            b.min_y as int,
            surface_heights(b, cols)[c] as int,
            new_h[c] as int,
        )
    }
}

/// The whole smoothing plan.
pub open spec fn smooth_plan_spec(b: Aabb, cols: Seq<Vec<BlockState>>, iterations: u32, kernel: i32) -> Seq<ChangeV> {
    let new_h = smooth_iter(
        surface_heights(b, cols),
        box_w(b),
        box_d(b),
        if kernel < 1 { 1 } else { kernel as int },
        b.min_y - 1,
        b.max_y as int,
        if iterations < 1 { 1 } else { iterations as nat },
    );
    plan_upto(b, cols, new_h, cols.len())
}

fn column_top_exec(col: &Vec<BlockState>) -> (r: i64)
    requires
        col@.len() <= 0x1_0000_0000,
    ensures
        r == column_top(column_view(*col)),
        -1 <= r < col@.len(),
{
    let ghost cv = column_view(*col);
    let mut top: i64 = -1;
    let mut y: usize = 0;
    assert(cv.take(0) =~= Seq::<BlockStateView>::empty());
    while y < col.len()
        invariant
            y <= col@.len(),
            cv == column_view(*col),
            top == column_top(cv.take(y as int)),
            -1 <= top < y,
            col@.len() <= 0x1_0000_0000,
        decreases col.len() - y,
    {
        assert(cv.take(y + 1).drop_last() =~= cv.take(y as int));
        assert(cv.take(y + 1).last() == col@[y as int]@);
        assert(column_top(cv.take(y + 1)) == if !is_air_like_view(cv[y as int]) {
            y as int
        } else {
            column_top(cv.take(y as int))
        });
        if !col[y].is_air_like() {
            top = y as i64;
        }
        y += 1;
    }
    assert(cv.take(col@.len() as int) =~= cv);
    top
}

fn range_changes_exec(
    col: &Vec<BlockState>,
    x: i32,
    z: i32,
    min_y: i32,
    f: usize,
    n: usize,
    fill: Option<&BlockState>,
    out: &mut Vec<BlockChange>,
)
    requires
        f + n <= col@.len(),
        min_y + f + n - 1 <= i32::MAX,
    ensures
        changes_view(final(out)@) == changes_view(old(out)@) + range_changes(
            column_view(*col),
            x,
            z,
            min_y as int,
            f as int,
            n as nat,
            match fill {
                Some(t) => Some(t@),
                None => None,
            },
        ),
{
    let ghost cv = column_view(*col);
    let ghost fv = match fill {
        Some(t) => Some(t@),
        None => None::<BlockStateView>,
    };
    let ghost start = changes_view(out@);
    let mut t: usize = 0;
    while t < n
        invariant
            t <= n,
            f + n <= col@.len(),
            min_y + f + n - 1 <= i32::MAX,
            cv == column_view(*col),
            fv == match fill {
                Some(t) => Some(t@),
                None => None::<BlockStateView>,
            },
            changes_view(out@) == start + range_changes(cv, x, z, min_y as int, f as int, t as nat, fv),
        decreases n - t,
    {
        let idx = f + t;
        let b = &col[idx];
        assert(cv[idx as int] == b@);
        let y: i32 = (min_y as i64 + idx as i64) as i32;
        let ghost before = changes_view(out@);
        match fill {
            Some(tgt) => {
                if !b.same(tgt) {
                    out.push(BlockChange { x, y, z, before: b.duplicate(), after: tgt.duplicate() });
                    assert(changes_view(out@) =~= before.push((x, y, z, b@, tgt@)));
                }
            },
            None => {
                if !b.is_air_like() {
                    let air = BlockState::air();
                    assert(air@ =~= plain_air());
                    out.push(BlockChange { x, y, z, before: b.duplicate(), after: air });
                    assert(changes_view(out@) =~= before.push((x, y, z, b@, plain_air())));
                }
            },
        }
        t += 1;
    }
}

/// Plans a heightmap smoothing of the box whose column contents are
/// `columns` (z-major, then x; each column bottom to top): the surface of
/// each column is its highest non-air cell (one below the box when it has
/// none); `smooth_heights` smooths those surfaces within the box's height;
/// then raised columns are filled with their top block (stone when they had
/// none) where a cell differs from it, and lowered columns are cleared to
/// air where a cell is not air-like.
pub fn smooth_plan(box_: Aabb, columns: &Vec<Vec<BlockState>>, iterations: u32, kernel: i32) -> (r: Vec<
    BlockChange,
>)
    requires
        box_.min_x <= box_.max_x,
        box_.min_y <= box_.max_y,
        box_.min_z <= box_.max_z,
        box_.min_y > i32::MIN,
        columns@.len() == box_w(box_) * box_d(box_),
        forall|c: int|
            0 <= c < columns@.len() ==> (#[trigger] columns@[c])@.len() == box_.max_y - box_.min_y + 1,
    ensures
        changes_view(r@) == smooth_plan_spec(box_, columns@, iterations, kernel),
{
    let nc: usize = columns.len();
    proof {
        assert(box_w(box_) <= box_w(box_) * box_d(box_)) by (nonlinear_arith)
            requires
                box_d(box_) >= 1,
                box_w(box_) >= 1,
        ;
        assert(box_d(box_) <= box_w(box_) * box_d(box_)) by (nonlinear_arith)
            requires
                box_d(box_) >= 1,
                box_w(box_) >= 1,
        ;
    }
    let w: usize = (box_.max_x as i64 - box_.min_x as i64 + 1) as usize;
    let d: usize = (box_.max_z as i64 - box_.min_z as i64 + 1) as usize;
    assert(w == box_w(box_) && d == box_d(box_));
    let mut heights: Vec<i32> = Vec::new();
    let mut c: usize = 0;
    while c < columns.len()
        invariant
            c <= columns@.len(),
            box_.min_y <= box_.max_y,
            box_.min_y > i32::MIN,
            box_.max_y - box_.min_y + 1 <= 0x1_0000_0000,
            forall|q: int|
                0 <= q < columns@.len() ==> (#[trigger] columns@[q])@.len() == box_.max_y - box_.min_y + 1,
            heights@ == surface_heights(box_, columns@).take(c as int),
        decreases columns.len() - c,
    {
        let top = column_top_exec(&columns[c]);
        let hgt: i32 = (box_.min_y as i64 + top) as i32;
        heights.push(hgt);
        assert(heights@ =~= surface_heights(box_, columns@).take(c + 1));
        c += 1;
    }
    assert(heights@ =~= surface_heights(box_, columns@));
    let new_h = smooth_heights(&heights, w, d, iterations, kernel, box_.min_y - 1, box_.max_y);
    let ghost nh = new_h@;
    let mut out: Vec<BlockChange> = Vec::new();
    let mut c: usize = 0;
    while c < columns.len()
        invariant
            c <= columns@.len(),
            w == box_w(box_),
            d == box_d(box_),
            w >= 1,
            box_.min_x <= box_.max_x,
            box_.min_y <= box_.max_y,
            box_.min_z <= box_.max_z,
            box_.min_y > i32::MIN,
            columns@.len() == box_w(box_) * box_d(box_),
            forall|q: int|
                0 <= q < columns@.len() ==> (#[trigger] columns@[q])@.len() == box_.max_y - box_.min_y + 1,
            heights@ == surface_heights(box_, columns@),
            nh == new_h@,
            new_h@.len() == columns@.len(),
            forall|q: int| 0 <= q < new_h@.len() ==> box_.min_y - 1 <= #[trigger] new_h@[q] <= box_.max_y,
            changes_view(out@) == plan_upto(box_, columns@, nh, c as nat),
        decreases columns.len() - c,
    {
        let col = &columns[c];
        let ghost cv = column_view(*col);
        let top = column_top_exec(col);
        let old_h = heights[c];
        let nw = new_h[c];
        proof {
            assert(c / w < d && c % w < w) by (nonlinear_arith)
                requires
                    c < w * d,
                    w >= 1,
            ;
            assert(old_h == box_.min_y + top);
        }
        let x: i32 = (box_.min_x as i64 + (c % w) as i64) as i32;
        let z: i32 = (box_.min_z as i64 + (c / w) as i64) as i32;
        let ghost before = changes_view(out@);
        assert(plan_upto(box_, columns@, nh, (c + 1) as nat) == before + column_changes(
            cv,
            x,
            z,
            box_.min_y as int,
            old_h as int,
            nw as int,
        ));
        if nw > old_h {
            let stone = BlockState::new("minecraft:stone");
            proof {
                reveal_strlit("minecraft:stone");
                assert(stone@ =~= plain_stone());
            }
            let fill: &BlockState = if top >= 0 {
                &col[top as usize]
            } else {
                &stone
            };
            assert(fill@ == column_fill(cv));
            let f: usize = (old_h as i64 + 1 - box_.min_y as i64) as usize;
            let n: usize = (nw as i64 - old_h as i64) as usize;
            range_changes_exec(col, x, z, box_.min_y, f, n, Some(fill), &mut out);
        } else if nw < old_h {
            let f: usize = (nw as i64 + 1 - box_.min_y as i64) as usize;
            let n: usize = (old_h as i64 - nw as i64) as usize;
            range_changes_exec(col, x, z, box_.min_y, f, n, None, &mut out);
        } else {
            assert(changes_view(out@) =~= before + Seq::<ChangeV>::empty());
        }
        c += 1;
    }
    out
}

} // verus!
