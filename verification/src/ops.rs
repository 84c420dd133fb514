//! Region geometry helpers (axis-aligned boxes) and block filters.

use vstd::prelude::*;
use crate::blockstate::{is_air_like_view, parse_state, BlockState, BlockStateView};
use crate::text::{eq_str, string_of, trim, trimmed};

verus! {

/// Inclusive box of block positions.
#[derive(Clone, Copy, Debug)]
pub struct Aabb {
    pub min_x: i32,
    pub min_y: i32,
    pub min_z: i32,
    pub max_x: i32,
    pub max_y: i32,
    pub max_z: i32,
}

pub open spec fn min_i(a: i32, b: i32) -> i32 {
    if a <= b {
        a
    } else {
        b
    }
}

pub open spec fn max_i(a: i32, b: i32) -> i32 {
    if a >= b {
        a
    } else {
        b
    }
}

/// `p` comes before `q` when scanning y, then z, then x.
pub open spec fn scan_before(p: (i32, i32, i32), q: (i32, i32, i32)) -> bool {
    p.1 < q.1 || (p.1 == q.1 && (p.2 < q.2 || (p.2 == q.2 && p.0 < q.0)))
}

impl Aabb {
    pub open spec fn contains_spec(&self, x: i32, y: i32, z: i32) -> bool {
        self.min_x <= x <= self.max_x && self.min_y <= y <= self.max_y && self.min_z <= z
            <= self.max_z
    }

    pub open spec fn on_outline_spec(&self, x: i32, y: i32, z: i32) -> bool {
        x == self.min_x || x == self.max_x || y == self.min_y || y == self.max_y || z
            == self.min_z || z == self.max_z
    }

    /// The box spanned by two corners.
    pub open spec fn from_corners_spec(x1: i32, y1: i32, z1: i32, x2: i32, y2: i32, z2: i32) -> Self {
        Aabb {
            min_x: min_i(x1, x2),
            min_y: min_i(y1, y2),
            min_z: min_i(z1, z2),
            max_x: max_i(x1, x2),
            max_y: max_i(y1, y2),
            max_z: max_i(z1, z2),
        }
    }

    /// The box spanned by two corners.
    pub fn from_corners(x1: i32, y1: i32, z1: i32, x2: i32, y2: i32, z2: i32) -> (r: Self)
        ensures
            r == Self::from_corners_spec(x1, y1, z1, x2, y2, z2),
            r.min_x == min_i(x1, x2),
            r.min_y == min_i(y1, y2),
            r.min_z == min_i(z1, z2),
            r.max_x == max_i(x1, x2),
            r.max_y == max_i(y1, y2),
            r.max_z == max_i(z1, z2),
    {
        Aabb {
            min_x: if x1 <= x2 { x1 } else { x2 },
            min_y: if y1 <= y2 { y1 } else { y2 },
            min_z: if z1 <= z2 { z1 } else { z2 },
            max_x: if x1 >= x2 { x1 } else { x2 },
            max_y: if y1 >= y2 { y1 } else { y2 },
            max_z: if z1 >= z2 { z1 } else { z2 },
        }
    }

    pub fn contains(&self, x: i32, y: i32, z: i32) -> (r: bool)
        ensures
            r == self.contains_spec(x, y, z),
    {
        self.min_x <= x && x <= self.max_x && self.min_y <= y && y <= self.max_y && self.min_z
            <= z && z <= self.max_z
    }

    /// On one of the four vertical walls.
    pub fn on_wall(&self, x: i32, _y: i32, z: i32) -> (r: bool)
        ensures
            r == (x == self.min_x || x == self.max_x || z == self.min_z || z == self.max_z),
    {
        x == self.min_x || x == self.max_x || z == self.min_z || z == self.max_z
    }

    /// On one of the six faces.
    pub fn on_outline(&self, x: i32, y: i32, z: i32) -> (r: bool)
        ensures
            r == self.on_outline_spec(x, y, z),
    {
        x == self.min_x || x == self.max_x || y == self.min_y || y == self.max_y || z
            == self.min_z || z == self.max_z
    }

    /// Inside and not on a face.
    pub fn interior(&self, x: i32, y: i32, z: i32) -> (r: bool)
        ensures
            r == (self.contains_spec(x, y, z) && !self.on_outline_spec(x, y, z)),
    {
        self.contains(x, y, z) && !self.on_outline(x, y, z)
    }

    /// Number of cells, for a box whose minimums do not exceed its maximums
    /// and whose cell count fits in `u64`.
    pub fn volume(&self) -> (r: u64)
        requires
            self.min_x <= self.max_x,
            self.min_y <= self.max_y,
            self.min_z <= self.max_z,
            (self.max_x - self.min_x + 1) * (self.max_y - self.min_y + 1) * (self.max_z
                - self.min_z + 1) <= u64::MAX,
        ensures
            r as int == (self.max_x - self.min_x + 1) * (self.max_y - self.min_y + 1) * (
            self.max_z - self.min_z + 1),
    {
        let dx = (self.max_x as i64 - self.min_x as i64 + 1) as u64;
        let dy = (self.max_y as i64 - self.min_y as i64 + 1) as u64;
        let dz = (self.max_z as i64 - self.min_z as i64 + 1) as u64;
        proof {
            assert(dx * dy <= dx * dy * dz) by (nonlinear_arith)
                requires
                    dz >= 1,
            ;
        }
        dx * dy * dz
    }
}

/// `filter` that is air-like, or named plain `air`, matches any air-like
/// block; otherwise the block must equal the filter.
pub open spec fn matches_filter_spec(block: BlockStateView, filter: BlockStateView) -> bool {
    if is_air_like_view(filter) || filter.name == "air"@ {
        is_air_like_view(block)
    } else {
        block == filter
    }
}

/// `--match air` / `minecraft:air` ⇒ any air-like; else exact state equality.
pub fn matches_filter(block: &BlockState, filter: &BlockState) -> (r: bool)
    ensures
        r == matches_filter_spec(block@, filter@),
{
    let n = crate::text::chars_of(filter.name().as_str());
    if filter.is_air_like() || eq_str(&n, "air") {
        return block.is_air_like();
    }
    block.same(filter)
}

/// What `parse_match_filter` reads.
pub open spec fn parse_match_filter_spec(s: Seq<char>) -> Result<BlockStateView, Seq<char>> {
    let t = trim(s);
    if t == "air"@ {
        Ok(BlockStateView { name: "minecraft:air"@, props: seq![] })
    } else {
        parse_state(t)
    }
}

/// `air` reads as `minecraft:air`; anything else as a block state.
pub fn parse_match_filter(s: &str) -> (r: Result<BlockState, String>)
    ensures
        match r {
            Ok(b) => parse_match_filter_spec(s@) == Ok::<BlockStateView, Seq<char>>(b@),
            Err(e) => parse_match_filter_spec(s@) == Err::<BlockStateView, Seq<char>>(e@),
        },
{
    let t = trimmed(s);
    if eq_str(&t, "air") {
        let a = BlockState::air();
        assert(a@ =~= BlockStateView { name: "minecraft:air"@, props: seq![] });
        return Ok(a);
    }
    let text = string_of(&t);
    proof {
        crate::text::lemma_trim_idempotent(s@);
    }
    BlockState::parse(text.as_str())
}

/// `out` lists, in y, z, x scan order and once each, exactly the cells of the
/// box for which `keep` holds.
pub open spec fn is_scan(box_: Aabb, keep: spec_fn(i32, i32, i32) -> bool, out: Seq<(i32, i32, i32)>) -> bool {
    &&& forall|i: int|
        0 <= i < out.len() ==> box_.contains_spec(out[i].0, out[i].1, out[i].2) && keep(
            out[i].0,
            out[i].1,
            out[i].2,
        )
    &&& forall|i: int, j: int| 0 <= i < j < out.len() ==> scan_before(out[i], out[j])
    &&& forall|x: i32, y: i32, z: i32|
        box_.contains_spec(x, y, z) && keep(x, y, z) ==> out.contains((x, y, z))
}

/// Cells of the box, in y, z, x scan order, for which `keep` answers true.
#[verifier::loop_isolation(false)]
pub fn aabb_positions<F: Fn(i32, i32, i32) -> bool>(box_: Aabb, keep: F) -> (out: Vec<
    (i32, i32, i32),
>)
    requires
        forall|x: i32, y: i32, z: i32| #[trigger] keep.requires((x, y, z)),
    ensures
        forall|i: int|
            0 <= i < out@.len() ==> box_.contains_spec(out@[i].0, out@[i].1, out@[i].2)
                && keep.ensures((out@[i].0, out@[i].1, out@[i].2), true),
        forall|i: int, j: int| 0 <= i < j < out@.len() ==> scan_before(out@[i], out@[j]),
        forall|x: i32, y: i32, z: i32|
            box_.contains_spec(x, y, z) ==> out@.contains((x, y, z)) || keep.ensures(
                (x, y, z),
                false,
            ),
{
    let mut out: Vec<(i32, i32, i32)> = Vec::new();
    let mut y: i64 = box_.min_y as i64;
    while y <= box_.max_y as i64
        invariant
            box_.min_y as i64 <= y,
            y <= (if box_.max_y >= box_.min_y { box_.max_y as int + 1 } else { box_.min_y as int }),
            forall|i: int|
                0 <= i < out@.len() ==> box_.contains_spec(out@[i].0, out@[i].1, out@[i].2)
                    && keep.ensures((out@[i].0, out@[i].1, out@[i].2), true) && out@[i].1 < y,
            forall|i: int, j: int| 0 <= i < j < out@.len() ==> scan_before(out@[i], out@[j]),
            forall|px: i32, py: i32, pz: i32|
                box_.contains_spec(px, py, pz) && py < y ==> out@.contains((px, py, pz))
                    || keep.ensures((px, py, pz), false),
        decreases box_.max_y as i64 + 1 - y,
    {
        let mut z: i64 = box_.min_z as i64;
        while z <= box_.max_z as i64
            invariant
                box_.min_y <= y <= box_.max_y,
                box_.min_z as i64 <= z,
                z <= (if box_.max_z >= box_.min_z { box_.max_z as int + 1 } else { box_.min_z as int }),
                forall|i: int|
                    0 <= i < out@.len() ==> box_.contains_spec(out@[i].0, out@[i].1, out@[i].2)
                        && keep.ensures((out@[i].0, out@[i].1, out@[i].2), true) && (out@[i].1
                        < y || (out@[i].1 == y && out@[i].2 < z)),
                forall|i: int, j: int| 0 <= i < j < out@.len() ==> scan_before(out@[i], out@[j]),
                forall|px: i32, py: i32, pz: i32|
                    box_.contains_spec(px, py, pz) && (py < y || (py == y && pz < z))
                        ==> out@.contains((px, py, pz)) || keep.ensures((px, py, pz), false),
            decreases box_.max_z as i64 + 1 - z,
        {
            let mut x: i64 = box_.min_x as i64;
            while x <= box_.max_x as i64
                invariant
                    box_.min_y <= y <= box_.max_y,
                    box_.min_z <= z <= box_.max_z,
                    box_.min_x as i64 <= x,
                    x <= (if box_.max_x >= box_.min_x { box_.max_x as int + 1 } else { box_.min_x as int }),
                    forall|i: int|
                        0 <= i < out@.len() ==> box_.contains_spec(
                            out@[i].0,
                            out@[i].1,
                            out@[i].2,
                        ) && keep.ensures((out@[i].0, out@[i].1, out@[i].2), true) && (out@[i].1
                            < y || (out@[i].1 == y && (out@[i].2 < z || (out@[i].2 == z
                            && out@[i].0 < x)))),
                    forall|i: int, j: int|
                        0 <= i < j < out@.len() ==> scan_before(out@[i], out@[j]),
                    forall|px: i32, py: i32, pz: i32|
                        box_.contains_spec(px, py, pz) && (py < y || (py == y && (pz < z || (pz
                            == z && px < x)))) ==> out@.contains((px, py, pz)) || keep.ensures(
                            (px, py, pz),
                            false,
                        ),
                decreases box_.max_x as i64 + 1 - x,
            {
                let (xi, yi, zi) = (x as i32, y as i32, z as i32);
                let k = keep(xi, yi, zi);
                let ghost before = out@;
                if k {
                    out.push((xi, yi, zi));
                    proof {
                        assert forall|px: i32, py: i32, pz: i32|
                            box_.contains_spec(px, py, pz) && (py < y || (py == y && (pz < z || (pz
                                == z && px < x + 1)))) implies out@.contains((px, py, pz))
                            || keep.ensures((px, py, pz), false) by {
                            if px == xi && py == yi && pz == zi {
                                assert(out@[before.len() as int] == (px, py, pz));
                            } else if before.contains((px, py, pz)) || keep.ensures(
                                (px, py, pz),
                                false,
                            ) {
                                if before.contains((px, py, pz)) {
                                    let w = choose|w: int|
                                        0 <= w < before.len() && before[w] == (px, py, pz);
                                    assert(out@[w] == (px, py, pz));
                                }
                            }
                        }
                    }
                }
                x += 1;
            }
            z += 1;
        }
        y += 1;
    }
    out
}

} // verus!
