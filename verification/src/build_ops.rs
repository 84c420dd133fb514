//! Building helpers: spacing grids and stair property normalisation.

use vstd::prelude::*;
use crate::blockstate::{insert_prop, props_insert, props_view, BlockState, BlockStateView, PropsView};
use crate::ops::{aabb_positions, is_scan, max_i, min_i, Aabb};
use crate::text::{
    append, append_str, chars_of, eq_str, int_text, lower, lower_chars, push_int, string_from, trim,
    trim_chars, string_of,
};

verus! {

/// Grid positions `c, c + s, c + 2s, …` up to `max`.
pub open spec fn axis_points(c: int, max: int, s: int) -> Seq<i32>
    decreases (if c > max {
        0
    } else {
        max - c + 1
    }),
    when s >= 1
{
    if c > max {
        seq![]
    } else {
        seq![c as i32] + axis_points(c + s, max, s)
    }
}

/// Stepping from `c` by `s` never leaves `i32` before passing `max`.
pub open spec fn axis_fits(c: int, max: int, s: int) -> bool
    decreases (if c > max {
        0
    } else {
        max - c + 1
    }),
    when s >= 1
{
    c > max || (c + s <= i32::MAX && axis_fits(c + s, max, s))
}

pub open spec fn at_least_one(s: i32) -> int {
    if s < 1 {
        1
    } else {
        s as int
    }
}

/// Positions from `min` to `max` inclusive every `spacing` (at least 1).
pub fn grid_axis(min: i32, max: i32, spacing: i32) -> (r: Vec<i32>)
    requires
        axis_fits(min as int, max as int, at_least_one(spacing)),
    ensures
        r@ == axis_points(min as int, max as int, at_least_one(spacing)),
{
    let spacing: i32 = if spacing < 1 {
        1
    } else {
        spacing
    };
    let ghost s = spacing as int;
    let mut out: Vec<i32> = Vec::new();
    let mut c: i32 = min;
    assert(out@ + axis_points(c as int, max as int, s) =~= axis_points(min as int, max as int, s));
    while c <= max
        invariant
            s == spacing,
            s >= 1,
            axis_fits(c as int, max as int, s),
            out@ + axis_points(c as int, max as int, s) == axis_points(min as int, max as int, s),
        decreases (if c > max {
            0
        } else {
            max - c + 1
        }),
    {
        let ghost before = out@;
        out.push(c);
        assert(out@ + axis_points(c + s, max as int, s) =~= before + axis_points(
            c as int,
            max as int,
            s,
        ));
        c = c + spacing;
    }
    assert(out@ =~= out@ + axis_points(c as int, max as int, s));
    out
}

/// Inserting several properties in turn.
pub open spec fn props_insert_all(p: PropsView, kvs: Seq<(Seq<char>, Seq<char>)>) -> PropsView
    decreases kvs.len(),
{
    if kvs.len() == 0 {
        p
    } else {
        props_insert_all(props_insert(p, kvs[0].0, kvs[0].1), kvs.drop_first())
    }
}

/// `base` with each `(key, value)` set, later pairs winning.
pub fn with_props(base: BlockState, props: &[(&str, &str)]) -> (r: BlockState)
    ensures
        r@.name == base@.name,
        r@.props == props_insert_all(
            base@.props,
            props@.map_values(|e: (&str, &str)| (e.0@, e.1@)),
        ),
{
    let ghost kvs = props@.map_values(|e: (&str, &str)| (e.0@, e.1@));
    let mut r = base;
    let mut i: usize = 0;
    assert(kvs.skip(0) =~= kvs);
    while i < props.len()
        invariant
            i <= props@.len(),
            r@.name == base@.name,
            kvs == props@.map_values(|e: (&str, &str)| (e.0@, e.1@)),
            props_insert_all(base@.props, kvs) == props_insert_all(r@.props, kvs.skip(i as int)),
        decreases props.len() - i,
    {
        let (k, v) = props[i];
        assert(kvs.skip(i as int)[0] == (k@, v@));
        assert(kvs.skip(i as int).drop_first() =~= kvs.skip(i + 1));
        r = r.with_prop(string_from(k), string_from(v));
        i += 1;
    }
    assert(kvs.skip(props@.len() as int) =~= Seq::<(Seq<char>, Seq<char>)>::empty());
    r
}

/// The canonical stairs facing for an alias, or the lowered input that
/// matched none.
pub open spec fn facing_of(s: Seq<char>) -> Result<Seq<char>, Seq<char>> {
    let t = lower(trim(s));
    if t == "north"@ || t == "n"@ {
        Ok("north"@)
    } else if t == "south"@ || t == "s"@ {
        Ok("south"@)
    } else if t == "east"@ || t == "e"@ {
        Ok("east"@)
    } else if t == "west"@ || t == "w"@ {
        Ok("west"@)
    } else {
        Err(t)
    }
}

pub open spec fn half_of(s: Seq<char>) -> Result<Seq<char>, Seq<char>> {
    let t = lower(trim(s));
    if t == "bottom"@ || t == "bot"@ || t == "lower"@ {
        Ok("bottom"@)
    } else if t == "top"@ || t == "upper"@ {
        Ok("top"@)
    } else {
        Err(t)
    }
}

pub open spec fn shape_of(s: Seq<char>) -> Result<Seq<char>, Seq<char>> {
    let t = lower(trim(s));
    if t == "straight"@ {
        Ok("straight"@)
    } else if t == "inner_left"@ || t == "inner-left"@ {
        Ok("inner_left"@)
    } else if t == "inner_right"@ || t == "inner-right"@ {
        Ok("inner_right"@)
    } else if t == "outer_left"@ || t == "outer-left"@ {
        Ok("outer_left"@)
    } else if t == "outer_right"@ || t == "outer-right"@ {
        Ok("outer_right"@)
    } else {
        Err(t)
    }
}

fn lowered_trim(s: &str) -> (r: Vec<char>)
    ensures
        r@ == lower(trim(s@)),
{
    let t = trim_chars(&chars_of(s));
    lower_chars(&t)
}

fn bad_value(prefix: &str, value: &[char], suffix: &str) -> (r: String)
    ensures
        r@ == prefix@ + value@ + suffix@,
{
    let mut m = chars_of(prefix);
    append(&mut m, value);
    let tail = chars_of(suffix);
    append(&mut m, &tail);
    string_of(&m)
}

/// Stairs facing: `north|n`, `south|s`, `east|e`, `west|w`, any case.
pub fn normalize_facing(s: &str) -> (r: Result<&'static str, String>)
    ensures
        match facing_of(s@) {
            Ok(f) => r is Ok && r->Ok_0@ == f,
            Err(t) => r is Err && r->Err_0@ == "bad stairs facing `"@ + t
                + "` (north|south|east|west)"@,
        },
{
    let t = lowered_trim(s);
    if eq_str(&t, "north") || eq_str(&t, "n") {
        Ok("north")
    } else if eq_str(&t, "south") || eq_str(&t, "s") {
        Ok("south")
    } else if eq_str(&t, "east") || eq_str(&t, "e") {
        Ok("east")
    } else if eq_str(&t, "west") || eq_str(&t, "w") {
        Ok("west")
    } else {
        Err(bad_value("bad stairs facing `", &t, "` (north|south|east|west)"))
    }
}

/// Stairs half: `bottom|bot|lower` or `top|upper`, any case.
pub fn normalize_half(s: &str) -> (r: Result<&'static str, String>)
    ensures
        match half_of(s@) {
            Ok(f) => r is Ok && r->Ok_0@ == f,
            Err(t) => r is Err && r->Err_0@ == "bad stairs half `"@ + t + "` (bottom|top)"@,
        },
{
    let t = lowered_trim(s);
    if eq_str(&t, "bottom") || eq_str(&t, "bot") || eq_str(&t, "lower") {
        Ok("bottom")
    } else if eq_str(&t, "top") || eq_str(&t, "upper") {
        Ok("top")
    } else {
        Err(bad_value("bad stairs half `", &t, "` (bottom|top)"))
    }
}

/// Stairs shape: `straight`, `inner_left`, `inner_right`, `outer_left`,
/// `outer_right` (a `-` may stand for the `_`), any case.
pub fn normalize_shape(s: &str) -> (r: Result<&'static str, String>)
    ensures
        match shape_of(s@) {
            Ok(f) => r is Ok && r->Ok_0@ == f,
            Err(t) => r is Err && r->Err_0@ == "bad stairs shape `"@ + t
                + "` (straight|inner_left|inner_right|outer_left|outer_right)"@,
        },
{
    let t = lowered_trim(s);
    if eq_str(&t, "straight") {
        Ok("straight")
    } else if eq_str(&t, "inner_left") || eq_str(&t, "inner-left") {
        Ok("inner_left")
    } else if eq_str(&t, "inner_right") || eq_str(&t, "inner-right") {
        Ok("inner_right")
    } else if eq_str(&t, "outer_left") || eq_str(&t, "outer-left") {
        Ok("outer_left")
    } else if eq_str(&t, "outer_right") || eq_str(&t, "outer-right") {
        Ok("outer_right")
    } else {
        Err(
            bad_value(
                "bad stairs shape `",
                &t,
                "` (straight|inner_left|inner_right|outer_left|outer_right)",
            ),
        )
    }
}


/// `(x1,y1,z1)..(x2,y2,z2)` for a box's corners.
pub open spec fn box_text(b: Aabb) -> Seq<char> {
    "("@ + int_text(b.min_x as int) + ","@ + int_text(b.min_y as int) + ","@ + int_text(
        b.min_z as int,
    ) + ")..("@ + int_text(b.max_x as int) + ","@ + int_text(b.max_y as int) + ","@ + int_text(
        b.max_z as int,
    ) + ")"@
}

pub fn push_box(out: &mut Vec<char>, b: Aabb)
    ensures
        final(out)@ == old(out)@ + box_text(b),
{
    append_str(out, "(");
    push_int(out, b.min_x as i64);
    append_str(out, ",");
    push_int(out, b.min_y as i64);
    append_str(out, ",");
    push_int(out, b.min_z as i64);
    append_str(out, ")..(");
    push_int(out, b.max_x as i64);
    append_str(out, ",");
    push_int(out, b.max_y as i64);
    append_str(out, ",");
    push_int(out, b.max_z as i64);
    append_str(out, ")");
    proof {
        reveal_strlit("(");
        reveal_strlit(",");
        reveal_strlit(")..(");
        reveal_strlit(")");
    }
    assert(final(out)@ =~= old(out)@ + box_text(b));
}

/// One pillar: `(x, y, z)` for `y` from `y0` up to `y1`.
pub open spec fn pillar(x: i32, z: i32, y0: int, y1: int) -> Seq<(i32, i32, i32)>
    decreases (if y1 < y0 {
        0
    } else {
        y1 - y0 + 1
    }),
{
    if y1 < y0 {
        seq![]
    } else {
        pillar(x, z, y0, y1 - 1).push((x, y1 as i32, z))
    }
}

/// The pillars at `x` for each `z` of `zs`, in order.
pub open spec fn pillar_row(x: i32, zs: Seq<i32>, y0: int, y1: int) -> Seq<(i32, i32, i32)>
    decreases zs.len(),
{
    if zs.len() == 0 {
        seq![]
    } else {
        pillar_row(x, zs.drop_last(), y0, y1) + pillar(x, zs.last(), y0, y1)
    }
}

/// The pillars of a colonnade: for each `x` of `xs`, each `z` of `zs`, the
/// whole height from `y0` to `y1`.
pub open spec fn colonnade(xs: Seq<i32>, zs: Seq<i32>, y0: int, y1: int) -> Seq<(i32, i32, i32)>
    decreases xs.len(),
{
    if xs.len() == 0 {
        seq![]
    } else {
        colonnade(xs.drop_last(), zs, y0, y1) + pillar_row(xs.last(), zs, y0, y1)
    }
}

/// What a colonnade edit writes: its box, its columns, and its history label.
#[derive(Debug)]
pub struct GridColumnsPlan {
    pub area: Aabb,
    pub positions: Vec<(i32, i32, i32)>,
    pub label: String,
}

/// Positions of a pillar grid inside the box of two corners: columns every
/// `spacing_x` along x and `spacing_z` along z (each at least 1), starting
/// at the minimum corner, each over the box's full height; labelled
/// `grid (..)..(..) spacing=sx,sz`.
pub fn grid_columns_plan(
    x1: i32,
    y1: i32,
    z1: i32,
    x2: i32,
    y2: i32,
    z2: i32,
    spacing_x: i32,
    spacing_z: i32,
) -> (r: GridColumnsPlan)
    requires
        axis_fits(min_i(x1, x2) as int, max_i(x1, x2) as int, at_least_one(spacing_x)),
        axis_fits(min_i(z1, z2) as int, max_i(z1, z2) as int, at_least_one(spacing_z)),
    ensures
        r.area == Aabb::from_corners_spec(x1, y1, z1, x2, y2, z2),
        r.positions@ == colonnade(
            axis_points(r.area.min_x as int, r.area.max_x as int, at_least_one(spacing_x)),
            axis_points(r.area.min_z as int, r.area.max_z as int, at_least_one(spacing_z)),
            r.area.min_y as int,
            r.area.max_y as int,
        ),
        r.label@ == "grid "@ + box_text(r.area) + " spacing="@ + int_text(at_least_one(spacing_x))
            + ","@ + int_text(at_least_one(spacing_z)),
{
    let b = Aabb::from_corners(x1, y1, z1, x2, y2, z2);
    let xs = grid_axis(b.min_x, b.max_x, spacing_x);
    let zs = grid_axis(b.min_z, b.max_z, spacing_z);
    let ghost y0 = b.min_y as int;
    let ghost y1s = b.max_y as int;
    let mut positions: Vec<(i32, i32, i32)> = Vec::new();
    let mut i: usize = 0;
    assert(xs@.take(0) =~= Seq::<i32>::empty());
    while i < xs.len()
        invariant
            i <= xs@.len(),
            b.min_y <= b.max_y,
            y0 == b.min_y,
            y1s == b.max_y,
            positions@ == colonnade(xs@.take(i as int), zs@, y0, y1s),
        decreases xs.len() - i,
    {
        let x = xs[i];
        let mut j: usize = 0;
        assert(zs@.take(0) =~= Seq::<i32>::empty());
        while j < zs.len()
            invariant
                i < xs@.len(),
                j <= zs@.len(),
                x == xs@[i as int],
                b.min_y <= b.max_y,
                y0 == b.min_y,
                y1s == b.max_y,
                positions@ == colonnade(xs@.take(i as int), zs@, y0, y1s) + pillar_row(
                    x,
                    zs@.take(j as int),
                    y0,
                    y1s,
                ),
            decreases zs.len() - j,
        {
            let z = zs[j];
            let ghost start = positions@;
            let mut y: i64 = b.min_y as i64;
            while y <= b.max_y as i64
                invariant
                    y0 <= y <= y1s + 1,
                    y0 == b.min_y,
                    y1s == b.max_y,
                    positions@ == start + pillar(x, z, y0, y - 1),
                decreases b.max_y as i64 + 1 - y,
            {
                positions.push((x, y as i32, z));
                y += 1;
            }
            assert(zs@.take(j + 1).drop_last() =~= zs@.take(j as int));
            assert(positions@ =~= colonnade(xs@.take(i as int), zs@, y0, y1s) + pillar_row(
                x,
                zs@.take(j + 1),
                y0,
                y1s,
            ));
            j += 1;
        }
        assert(zs@.take(zs@.len() as int) =~= zs@);
        assert(xs@.take(i + 1).drop_last() =~= xs@.take(i as int));
        i += 1;
    }
    assert(xs@.take(xs@.len() as int) =~= xs@);
    let sx: i32 = if spacing_x < 1 {
        1
    } else {
        spacing_x
    };
    let sz: i32 = if spacing_z < 1 {
        1
    } else {
        spacing_z
    };
    let mut m = chars_of("grid ");
    push_box(&mut m, b);
    append_str(&mut m, " spacing=");
    push_int(&mut m, sx as i64);
    append_str(&mut m, ",");
    push_int(&mut m, sz as i64);
    GridColumnsPlan { area: b, positions, label: string_of(&m) }
}

/// Distance of a column from the box's minimum along the roof axis.
pub open spec fn along(b: Aabb, axis: char, x: i32, z: i32) -> int {
    if axis == 'x' {
        x - b.min_x
    } else {
        z - b.min_z
    }
}

/// Cells of a tile row: every `period`-th column from the minimum.
pub open spec fn on_roof_row(b: Aabb, axis: char, period: int, x: i32, z: i32) -> bool {
    along(b, axis, x, z) >= 0 && along(b, axis, x, z) % period == 0
}

/// The roof axis named by a letter, in either case.
pub open spec fn roof_axis_of(c: char) -> Option<char> {
    if c == 'x' || c == 'X' {
        Some('x')
    } else if c == 'z' || c == 'Z' {
        Some('z')
    } else {
        None
    }
}

/// What a roof-rows edit writes.
#[derive(Debug)]
pub struct RoofRowsPlan {
    pub area: Aabb,
    pub axis: char,
    pub period: i32,
    pub stair_state: Option<BlockState>,
    pub block_positions: Vec<(i32, i32, i32)>,
    pub stair_positions: Vec<(i32, i32, i32)>,
    pub label: String,
}

/// Roof tile rows (瓦垄) in the box of two corners: every `period`-th slice
/// (at least 1) across `axis` (`x` or `z`, any case) takes `block`; when
/// `stairs` is given, the cells between take it with the normalised facing
/// and half and shape `straight`. Refuses another axis, then a bad facing,
/// then a bad half, with the editor's messages.
pub fn roof_rows_plan(
    x1: i32,
    y1: i32,
    z1: i32,
    x2: i32,
    y2: i32,
    z2: i32,
    axis: char,
    period: i32,
    stairs: Option<BlockState>,
    stairs_facing: &str,
    stairs_half: &str,
) -> (r: Result<RoofRowsPlan, String>)
    ensures
        roof_axis_of(axis) is None ==> r is Err && r->Err_0@ == "roof-rows --axis must be x or z"@,
        roof_axis_of(axis) is Some && facing_of(stairs_facing@) is Err ==> r is Err && r->Err_0@
            == "bad stairs facing `"@ + facing_of(stairs_facing@)->Err_0
            + "` (north|south|east|west)"@,
        roof_axis_of(axis) is Some && facing_of(stairs_facing@) is Ok && half_of(stairs_half@) is Err
            ==> r is Err && r->Err_0@ == "bad stairs half `"@ + half_of(stairs_half@)->Err_0
            + "` (bottom|top)"@,
        roof_axis_of(axis) is Some && facing_of(stairs_facing@) is Ok && half_of(stairs_half@) is Ok
            ==> r is Ok && ({
            let p = r->Ok_0;
            let per = at_least_one(period);
            &&& p.area == Aabb::from_corners_spec(x1, y1, z1, x2, y2, z2)
            &&& p.axis == roof_axis_of(axis)->0
            &&& p.period == per
            &&& is_scan(p.area, |x: i32, y: i32, z: i32| on_roof_row(p.area, p.axis, per, x, z), p.block_positions@)
            &&& match stairs {
                None => p.stair_state is None && p.stair_positions@.len() == 0,
                Some(base) => p.stair_state is Some && p.stair_state->0@.name == base@.name
                    && p.stair_state->0@.props == props_insert_all(
                    base@.props,
                    seq![
                        ("facing"@, facing_of(stairs_facing@)->Ok_0),
                        ("half"@, half_of(stairs_half@)->Ok_0),
                        ("shape"@, "straight"@),
                    ],
                ) && is_scan(
                    p.area,
                    |x: i32, y: i32, z: i32| !on_roof_row(p.area, p.axis, per, x, z),
                    p.stair_positions@,
                ),
            }
            &&& p.label@ == "roof-rows "@ + box_text(p.area) + " axis="@ + seq![p.axis] + " period="@
                + int_text(per)
        }),
{
    let period: i32 = if period < 1 {
        1
    } else {
        period
    };
    let axis: char = if axis == 'x' || axis == 'X' {
        'x'
    } else if axis == 'z' || axis == 'Z' {
        'z'
    } else {
        return Err(string_from("roof-rows --axis must be x or z"));
    };
    let b = Aabb::from_corners(x1, y1, z1, x2, y2, z2);
    let facing = normalize_facing(stairs_facing)?;
    let half = normalize_half(stairs_half)?;
    let on_row = |x: i32, y: i32, z: i32| -> (k: bool)
        ensures
            k == on_roof_row(b, axis, period as int, x, z),
        {
            let a: i64 = if axis == 'x' {
                x as i64 - b.min_x as i64
            } else {
                z as i64 - b.min_z as i64
            };
            let p: i64 = if period < 1 {
                1
            } else {
                period as i64
            };
            a >= 0 && a % p == 0
        };
    let between = |x: i32, y: i32, z: i32| -> (k: bool)
        ensures
            k == !on_roof_row(b, axis, period as int, x, z),
        {
            let a: i64 = if axis == 'x' {
                x as i64 - b.min_x as i64
            } else {
                z as i64 - b.min_z as i64
            };
            let p: i64 = if period < 1 {
                1
            } else {
                period as i64
            };
            !(a >= 0 && a % p == 0)
        };
    let block_positions = aabb_positions(b, on_row);
    let (stair_state, stair_positions) = match stairs {
        None => (None, Vec::new()),
        Some(base) => {
            let props: [(&str, &str); 3] = [("facing", facing), ("half", half), ("shape", "straight")];
            let st = with_props(base, &props);
            assert(props@.map_values(|e: (&str, &str)| (e.0@, e.1@)) =~= seq![
                ("facing"@, facing@),
                ("half"@, half@),
                ("shape"@, "straight"@),
            ]);
            let sp = aabb_positions(b, between);
            assert(is_scan(b, |x: i32, y: i32, z: i32| !on_roof_row(b, axis, period as int, x, z), sp@));
            (Some(st), sp)
        },
    };
    let mut m = chars_of("roof-rows ");
    push_box(&mut m, b);
    append_str(&mut m, " axis=");
    m.push(axis);
    append_str(&mut m, " period=");
    push_int(&mut m, period as i64);
    assert(m@ =~= "roof-rows "@ + box_text(b) + " axis="@ + seq![axis] + " period="@ + int_text(
        period as int,
    ));
    assert(is_scan(b, |x: i32, y: i32, z: i32| on_roof_row(b, axis, period as int, x, z), block_positions@));
    Ok(
        RoofRowsPlan {
            area: b,
            axis,
            period,
            stair_state,
            block_positions,
            stair_positions,
            label: string_of(&m),
        },
    )
}

/// What a stairs fill writes.
#[derive(Debug)]
pub struct StairsFillPlan {
    pub area: Aabb,
    pub state: BlockState,
    pub positions: Vec<(i32, i32, i32)>,
    pub label: String,
}

/// Fill the box of two corners with `block` as stairs of the given facing,
/// half and shape (each normalised; refused in that order with the editor's
/// messages), every cell in y, z, x scan order.
pub fn stairs_fill_plan(
    x1: i32,
    y1: i32,
    z1: i32,
    x2: i32,
    y2: i32,
    z2: i32,
    block: BlockState,
    facing: &str,
    half: &str,
    shape: &str,
) -> (r: Result<StairsFillPlan, String>)
    ensures
        facing_of(facing@) is Err ==> r is Err && r->Err_0@ == "bad stairs facing `"@ + facing_of(
            facing@,
        )->Err_0 + "` (north|south|east|west)"@,
        facing_of(facing@) is Ok && half_of(half@) is Err ==> r is Err && r->Err_0@
            == "bad stairs half `"@ + half_of(half@)->Err_0 + "` (bottom|top)"@,
        facing_of(facing@) is Ok && half_of(half@) is Ok && shape_of(shape@) is Err ==> r is Err
            && r->Err_0@ == "bad stairs shape `"@ + shape_of(shape@)->Err_0
            + "` (straight|inner_left|inner_right|outer_left|outer_right)"@,
        facing_of(facing@) is Ok && half_of(half@) is Ok && shape_of(shape@) is Ok ==> r is Ok && ({
            let p = r->Ok_0;
            let f = facing_of(facing@)->Ok_0;
            let h = half_of(half@)->Ok_0;
            let sh = shape_of(shape@)->Ok_0;
            &&& p.area == Aabb::from_corners_spec(x1, y1, z1, x2, y2, z2)
            &&& p.state@.name == block@.name
            &&& p.state@.props == props_insert_all(
                block@.props,
                seq![("facing"@, f), ("half"@, h), ("shape"@, sh)],
            )
            &&& is_scan(p.area, |x: i32, y: i32, z: i32| true, p.positions@)
            &&& p.label@ == "stairs "@ + box_text(p.area) + " facing="@ + f + " half="@ + h
                + " shape="@ + sh
        }),
{
    let facing = normalize_facing(facing)?;
    let half = normalize_half(half)?;
    let shape = normalize_shape(shape)?;
    let props: [(&str, &str); 3] = [("facing", facing), ("half", half), ("shape", shape)];
    let state = with_props(block, &props);
    assert(props@.map_values(|e: (&str, &str)| (e.0@, e.1@)) =~= seq![
        ("facing"@, facing@),
        ("half"@, half@),
        ("shape"@, shape@),
    ]);
    let b = Aabb::from_corners(x1, y1, z1, x2, y2, z2);
    let every = |x: i32, y: i32, z: i32| -> (k: bool)
        ensures
            k,
        { true };
    let positions = aabb_positions(b, every);
    assert(is_scan(b, |x: i32, y: i32, z: i32| true, positions@));
    let mut m = chars_of("stairs ");
    push_box(&mut m, b);
    append_str(&mut m, " facing=");
    append_str(&mut m, facing);
    append_str(&mut m, " half=");
    append_str(&mut m, half);
    append_str(&mut m, " shape=");
    append_str(&mut m, shape);
    Ok(StairsFillPlan { area: b, state, positions, label: string_of(&m) })
}

} // verus!
