//! The block changes an edit plans, given what the world holds: the
//! pattern's pick at each position (where the mask accepts the old block)
//! wherever it differs from the old block.

use vstd::prelude::*;
use crate::action::BlockChange;
use crate::blockstate::{compact, short_label, BlockState, BlockStateView};
use crate::build_ops::{box_text, push_box};
use crate::mask::{describe_mask, mask_matches, parse_mask, Mask, MaskView};
use crate::ops::Aabb;
use crate::pattern::{describe_spec, Pattern};
use crate::level::string_views;
use crate::text::{append_str, chars_of, int_text, join, join_chars, push_int, string_from, string_of, views};

verus! {

pub open spec fn change_view(c: BlockChange) -> (i32, i32, i32, BlockStateView, BlockStateView) {
    (c.x, c.y, c.z, c.before@, c.after@)
}

pub open spec fn changes_view(cs: Seq<BlockChange>) -> Seq<(i32, i32, i32, BlockStateView, BlockStateView)> {
    cs.map_values(|c: BlockChange| change_view(c))
}

pub open spec fn mask_view_of(m: Option<&Mask>) -> Option<MaskView> {
    match m {
        Some(m) => Some(m@),
        None => None,
    }
}

/// The changes for the first `n` positions: each position whose old block
/// the mask accepts and differs from the pattern's pick there.
pub open spec fn planned(
    positions: Seq<(i32, i32, i32)>,
    befores: Seq<BlockStateView>,
    pattern: Pattern,
    mask: Option<MaskView>,
    n: nat,
) -> Seq<(i32, i32, i32, BlockStateView, BlockStateView)>
    decreases n,
{
    if n == 0 {
        seq![]
    } else {
        let prev = planned(positions, befores, pattern, mask, (n - 1) as nat);
        let (x, y, z) = positions[n - 1];
        let before = befores[n - 1];
        let after = pattern.pick_view(x, y, z);
        let accepted = match mask {
            Some(m) => mask_matches(m, before),
            None => true,
        };
        if accepted && before != after {
            prev.push((x, y, z, before, after))
        } else {
            prev
        }
    }
}

/// Plan setting `pattern` at `positions`, whose current blocks are
/// `befores`, where `mask` (if any) accepts the current block.
pub fn plan_pattern_changes(
    positions: &[(i32, i32, i32)],
    befores: &[BlockState],
    pattern: &Pattern,
    mask: Option<&Mask>,
) -> (r: Vec<BlockChange>)
    requires
        positions@.len() == befores@.len(),
        pattern.wf(),
    ensures
        changes_view(r@) == planned(
            positions@,
            befores@.map_values(|b: BlockState| b@),
            *pattern,
            mask_view_of(mask),
            positions@.len(),
        ),
{
    let ghost bv = befores@.map_values(|b: BlockState| b@);
    let mut out: Vec<BlockChange> = Vec::new();
    let mut i: usize = 0;
    assert(changes_view(out@) =~= Seq::<(i32, i32, i32, BlockStateView, BlockStateView)>::empty());
    while i < positions.len()
        invariant
            i <= positions@.len(),
            positions@.len() == befores@.len(),
            pattern.wf(),
            bv == befores@.map_values(|b: BlockState| b@),
            changes_view(out@) == planned(positions@, bv, *pattern, mask_view_of(mask), i as nat),
        decreases positions.len() - i,
    {
        let (x, y, z) = positions[i];
        let before = &befores[i];
        let accepted = match mask {
            Some(m) => m.matches(before),
            None => true,
        };
        if accepted {
            let after = pattern.pick_at(x, y, z);
            if !before.same(after) {
                let ghost prev = changes_view(out@);
                out.push(BlockChange { x, y, z, before: before.duplicate(), after: after.duplicate() });
                assert(changes_view(out@) =~= prev.push((x, y, z, bv[i as int], pattern.pick_view(x, y, z))));
            }
        }
        i += 1;
    }
    out
}

/// The history label of a fill: the box, the pattern, and the mask when
/// there is one.
pub fn fill_label(b: Aabb, pattern: &Pattern, mask: Option<&Mask>) -> (r: String)
    requires
        pattern.wf(),
    ensures
        r@ == "fill "@ + box_text(b) + " -> "@ + describe_spec(pattern.entries_view(), pattern.total_view())
            + match mask {
            Some(m) => " mask="@ + describe_mask(m@),
            None => ""@,
        },
{
    let mut m = chars_of("fill ");
    push_box(&mut m, b);
    append_str(&mut m, " -> ");
    append_str(&mut m, pattern.describe().as_str());
    match mask {
        Some(k) => {
            append_str(&mut m, " mask=");
            append_str(&mut m, k.describe().as_str());
        },
        None => append_str(&mut m, ""),
    }
    string_of(&m)
}

/// The history label of a replace: the mask, the pattern, and the box.
pub fn replace_label(b: Aabb, mask: &Mask, pattern: &Pattern) -> (r: String)
    requires
        pattern.wf(),
    ensures
        r@ == "replace "@ + describe_mask(mask@) + " -> "@ + describe_spec(
            pattern.entries_view(),
            pattern.total_view(),
        ) + " in "@ + box_text(b),
{
    let mut m = chars_of("replace ");
    append_str(&mut m, mask.describe().as_str());
    append_str(&mut m, " -> ");
    append_str(&mut m, pattern.describe().as_str());
    append_str(&mut m, " in ");
    push_box(&mut m, b);
    string_of(&m)
}

/// The history label of a single-block edit such as `walls`, `outline` or
/// `overlay`: the edit's name, ` -> ` and the block.
pub fn block_label(kind: &str, block: &BlockState) -> (r: String)
    ensures
        r@ == kind@ + " -> "@ + compact(block@),
{
    let mut m = chars_of(kind);
    append_str(&mut m, " -> ");
    append_str(&mut m, block.to_compact().as_str());
    string_of(&m)
}

/// The mask a replace uses for the block it matches: the mask its compact
/// text parses to, else exactly that block.
pub fn replace_mask(match_block: BlockState) -> (r: Mask)
    ensures
        r@ == match parse_mask(compact(match_block@)) {
            Ok(m) => m,
            Err(_) => MaskView::Exact(match_block@),
        },
{
    let text = match_block.to_compact();
    match Mask::parse(text.as_str()) {
        Ok(m) => m,
        Err(_) => Mask::Exact(match_block),
    }
}

/// The lines of a horizontal slice at height `y` over the rectangle of two
/// corners, given its blocks row by row (z, then x): a header, then one
/// line per row of short labels separated by spaces.
pub open spec fn slice_text(
    y: i32,
    min_x: i32,
    min_z: i32,
    max_x: i32,
    max_z: i32,
    states: Seq<BlockState>,
) -> Seq<Seq<char>> {
    let w = max_x - min_x + 1;
    let h = max_z - min_z + 1;
    seq![
        "slice y="@ + int_text(y as int) + " ("@ + int_text(min_x as int) + ","@ + int_text(
            min_z as int,
        ) + ")..("@ + int_text(max_x as int) + ","@ + int_text(max_z as int) + ")"@,
    ] + Seq::new(
        h as nat,
        |r: int| join(Seq::new(w as nat, |c: int| short_label(states[r * w + c]@)), ' '),
    )
}

/// A text slice of the blocks at height `y`; at most 65 × 65 cells.
pub fn slice_lines(
    y: i32,
    x1: i32,
    z1: i32,
    x2: i32,
    z2: i32,
    states: &Vec<BlockState>,
) -> (r: Result<Vec<String>, String>)
    requires
        ({
            let (lo_x, hi_x) = if x1 <= x2 { (x1, x2) } else { (x2, x1) };
            let (lo_z, hi_z) = if z1 <= z2 { (z1, z2) } else { (z2, z1) };
            hi_x - lo_x <= 64 && hi_z - lo_z <= 64 ==> states@.len() == (hi_x - lo_x + 1) * (hi_z
                - lo_z + 1)
        }),
    ensures
        ({
            let (lo_x, hi_x) = if x1 <= x2 { (x1, x2) } else { (x2, x1) };
            let (lo_z, hi_z) = if z1 <= z2 { (z1, z2) } else { (z2, z1) };
            if hi_x - lo_x > 64 || hi_z - lo_z > 64 {
                r is Err && r->Err_0@ == "slice too large (max 65x65)"@
            } else {
                r is Ok && string_views(r->Ok_0@) == slice_text(y, lo_x, lo_z, hi_x, hi_z, states@)
            }
        }),
{
    let (min_x, max_x) = if x1 <= x2 { (x1, x2) } else { (x2, x1) };
    let (min_z, max_z) = if z1 <= z2 { (z1, z2) } else { (z2, z1) };
    if max_x as i64 - min_x as i64 > 64 || max_z as i64 - min_z as i64 > 64 {
        return Err(string_from("slice too large (max 65x65)"));
    }
    let w: usize = (max_x - min_x + 1) as usize;
    let h: usize = (max_z - min_z + 1) as usize;
    let mut head = chars_of("slice y=");
    push_int(&mut head, y as i64);
    append_str(&mut head, " (");
    push_int(&mut head, min_x as i64);
    append_str(&mut head, ",");
    push_int(&mut head, min_z as i64);
    append_str(&mut head, ")..(");
    push_int(&mut head, max_x as i64);
    append_str(&mut head, ",");
    push_int(&mut head, max_z as i64);
    append_str(&mut head, ")");
    let mut out: Vec<String> = Vec::new();
    out.push(string_of(&head));
    let ghost want = slice_text(y, min_x, min_z, max_x, max_z, states@);
    assert(string_views(out@) =~= want.take(1));
    let mut r: usize = 0;
    while r < h
        invariant
            r <= h,
            w == max_x - min_x + 1,
            h == max_z - min_z + 1,
            w <= 65 && h <= 65,
            states@.len() == w * h,
            want == slice_text(y, min_x, min_z, max_x, max_z, states@),
            string_views(out@) == want.take(r + 1),
        decreases h - r,
    {
        let mut labels: Vec<Vec<char>> = Vec::new();
        let mut c: usize = 0;
        assert(r * w + w <= w * h) by (nonlinear_arith)
            requires
                r < h,
        ;
        while c < w
            invariant
                c <= w,
                r < h,
                w == max_x - min_x + 1,
                w <= 65 && h <= 65,
                r < 65,
                r * w + w <= w * h,
                states@.len() == w * h,
                views(labels@) == Seq::new(c as nat, |k: int| short_label(states@[r * w + k]@)),
            decreases w - c,
        {
            let ghost before = views(labels@);
            assert(r * w + c < states@.len());
            assert(r * w <= 65 * 65) by (nonlinear_arith)
                requires
                    r < 65,
                    w <= 65,
            ;
            labels.push(chars_of(states[r * w + c].short_label().as_str()));
            assert(views(labels@) =~= before.push(short_label(states@[r * w + c]@)));
            assert(views(labels@) =~= Seq::new((c + 1) as nat, |k: int| short_label(states@[r * w + k]@)));
            c += 1;
        }
        let line = join_chars(&labels, ' ');
        let ghost before = string_views(out@);
        out.push(string_of(&line));
        assert(string_views(out@) =~= before.push(line@));
        assert(line@ == want[r + 1]);
        assert(string_views(out@) =~= want.take(r + 2));
        r += 1;
    }
    assert(want.take(h + 1) =~= want);
    Ok(out)
}

pub type ChangeV = (i32, i32, i32, BlockStateView, BlockStateView);

/// Positions in (x, y, z) order, as a sorted map keyed by them lists them.
pub open spec fn pos_lt(a: ChangeV, b: ChangeV) -> bool {
    a.0 < b.0 || (a.0 == b.0 && (a.1 < b.1 || (a.1 == b.1 && a.2 < b.2)))
}

pub open spec fn same_pos(a: ChangeV, b: ChangeV) -> bool {
    a.0 == b.0 && a.1 == b.1 && a.2 == b.2
}

/// `c` put into a position-ordered list, replacing the entry at its
/// position.
pub open spec fn put_change(acc: Seq<ChangeV>, c: ChangeV) -> Seq<ChangeV>
    decreases acc.len(),
{
    if acc.len() == 0 {
        seq![c]
    } else if same_pos(acc[0], c) {
        seq![c] + acc.drop_first()
    } else if pos_lt(c, acc[0]) {
        seq![c] + acc
    } else {
        seq![acc[0]] + put_change(acc.drop_first(), c)
    }
}

/// The changes keyed by position, later ones winning, in position order.
pub open spec fn merged_changes(cs: Seq<ChangeV>) -> Seq<ChangeV>
    decreases cs.len(),
{
    if cs.len() == 0 {
        seq![]
    } else {
        put_change(merged_changes(cs.drop_last()), cs.last())
    }
}

fn dup_change(c: &BlockChange) -> (r: BlockChange)
    ensures
        change_view(r) == change_view(*c),
{
    BlockChange { x: c.x, y: c.y, z: c.z, before: c.before.duplicate(), after: c.after.duplicate() }
}

fn put_change_exec(acc: &Vec<BlockChange>, c: BlockChange) -> (out: Vec<BlockChange>)
    ensures
        changes_view(out@) == put_change(changes_view(acc@), change_view(c)),
{
    let ghost v = changes_view(acc@);
    let ghost cv = change_view(c);
    let mut out: Vec<BlockChange> = Vec::new();
    let mut i: usize = 0;
    assert(v.skip(0) =~= v);
    assert(changes_view(out@) =~= Seq::<ChangeV>::empty());
    while i < acc.len()
        invariant
            i <= acc@.len(),
            v == changes_view(acc@),
            cv == change_view(c),
            changes_view(out@) + put_change(v.skip(i as int), cv) == put_change(v, cv),
        decreases acc.len() - i,
    {
        let ghost rest = v.skip(i as int);
        assert(rest[0] == change_view(acc@[i as int]));
        assert(rest.drop_first() =~= v.skip(i + 1));
        let a = &acc[i];
        let same = a.x == c.x && a.y == c.y && a.z == c.z;
        let before_it = c.x < a.x || (c.x == a.x && (c.y < a.y || (c.y == a.y && c.z < a.z)));
        if same || before_it {
            let ghost before = changes_view(out@);
            let j0: usize = if same {
                i + 1
            } else {
                i
            };
            out.push(c);
            let ghost mid = changes_view(out@);
            let mut j: usize = j0;
            while j < acc.len()
                invariant
                    j0 <= j <= acc@.len(),
                    v == changes_view(acc@),
                    changes_view(out@) == mid + v.subrange(j0 as int, j as int),
                decreases acc.len() - j,
            {
                let ghost o = changes_view(out@);
                out.push(dup_change(&acc[j]));
                assert(changes_view(out@) =~= o.push(v[j as int]));
                assert(changes_view(out@) =~= mid + v.subrange(j0 as int, j + 1));
                j += 1;
            }
            assert(v.subrange(j0 as int, acc@.len() as int) =~= (if same {
                rest.drop_first()
            } else {
                rest
            }));
            assert(changes_view(out@) =~= before + put_change(rest, cv));
            return out;
        }
        let ghost before = changes_view(out@);
        out.push(dup_change(&acc[i]));
        assert(changes_view(out@) =~= before.push(rest[0]));
        assert(put_change(rest, cv) == seq![rest[0]] + put_change(rest.drop_first(), cv));
        assert(changes_view(out@) + put_change(v.skip(i + 1), cv) =~= before + put_change(rest, cv));
        i += 1;
    }
    let ghost before = changes_view(out@);
    out.push(c);
    assert(v.skip(i as int) =~= Seq::<ChangeV>::empty());
    assert(changes_view(out@) =~= before + put_change(v.skip(i as int), cv));
    out
}

/// Key changes by position so that a later change to a cell replaces an
/// earlier one, listed in position order (how a move's clearing and pasting
/// combine).
pub fn merge_by_position(changes: &Vec<BlockChange>) -> (r: Vec<BlockChange>)
    ensures
        changes_view(r@) == merged_changes(changes_view(changes@)),
{
    let ghost all = changes_view(changes@);
    let mut out: Vec<BlockChange> = Vec::new();
    let mut i: usize = 0;
    assert(all.take(0) =~= Seq::<ChangeV>::empty());
    while i < changes.len()
        invariant
            i <= changes@.len(),
            all == changes_view(changes@),
            changes_view(out@) == merged_changes(all.take(i as int)),
        decreases changes.len() - i,
    {
        let c = dup_change(&changes[i]);
        assert(change_view(c) == all[i as int]);
        assert(all.take(i + 1).drop_last() =~= all.take(i as int));
        out = put_change_exec(&out, c);
        i += 1;
    }
    assert(all.take(all.len() as int) =~= all);
    out
}

pub open spec fn pos_sorted(s: Seq<ChangeV>) -> bool {
    forall|i: int, j: int| 0 <= i < j < s.len() ==> pos_lt(#[trigger] s[i], #[trigger] s[j])
}

/// `cs[k]` is the last change to its cell.
pub open spec fn last_write(cs: Seq<ChangeV>, k: int) -> bool {
    0 <= k < cs.len() && forall|j: int| k < j < cs.len() ==> !same_pos(#[trigger] cs[j], cs[k])
}

proof fn lemma_put_change(acc: Seq<ChangeV>, c: ChangeV)
    requires
        pos_sorted(acc),
    ensures
        pos_sorted(put_change(acc, c)),
        put_change(acc, c).contains(c),
        forall|e: ChangeV| acc.contains(e) && !same_pos(e, c) ==> put_change(acc, c).contains(e),
        forall|e: ChangeV|
            put_change(acc, c).contains(e) ==> e == c || (acc.contains(e) && !same_pos(e, c)),
    decreases acc.len(),
{
    let r = put_change(acc, c);
    if acc.len() == 0 {
        assert(r[0] == c);
    } else if same_pos(acc[0], c) {
        assert(r[0] == c);
        assert forall|e: ChangeV| acc.contains(e) && !same_pos(e, c) implies r.contains(e) by {
            let k = choose|k: int| 0 <= k < acc.len() && acc[k] == e;
            assert(k != 0);
            assert(r[k] == e);
        }
        assert forall|e: ChangeV| r.contains(e) implies e == c || (acc.contains(e) && !same_pos(e, c)) by {
            let k = choose|k: int| 0 <= k < r.len() && r[k] == e;
            if k > 0 {
                assert(acc[k] == e);
                assert(pos_lt(acc[0], acc[k]));
            }
        }
    } else if pos_lt(c, acc[0]) {
        assert(r[0] == c);
        assert forall|e: ChangeV| acc.contains(e) && !same_pos(e, c) implies r.contains(e) by {
            let k = choose|k: int| 0 <= k < acc.len() && acc[k] == e;
            assert(r[k + 1] == e);
        }
        assert forall|e: ChangeV| r.contains(e) implies e == c || (acc.contains(e) && !same_pos(e, c)) by {
            let k = choose|k: int| 0 <= k < r.len() && r[k] == e;
            if k > 0 {
                assert(acc[k - 1] == e);
                if k - 1 > 0 {
                    assert(pos_lt(acc[0], acc[k - 1]));
                }
            }
        }
    } else {
        let t = acc.drop_first();
        assert(pos_sorted(t)) by {
            assert forall|i: int, j: int| 0 <= i < j < t.len() implies pos_lt(t[i], t[j]) by {
                assert(t[i] == acc[i + 1] && t[j] == acc[j + 1]);
            }
        }
        lemma_put_change(t, c);
        let pt = put_change(t, c);
        assert(r == seq![acc[0]] + pt);
        assert forall|k: int| 0 <= k < pt.len() implies pos_lt(acc[0], #[trigger] pt[k]) by {
            assert(pt.contains(pt[k]));
            if pt[k] != c {
                assert(t.contains(pt[k]));
                let m = choose|m: int| 0 <= m < t.len() && t[m] == pt[k];
                assert(acc[m + 1] == pt[k]);
            }
        }
        assert forall|i: int, j: int| 0 <= i < j < r.len() implies pos_lt(#[trigger] r[i], #[trigger] r[j]) by {
            if i == 0 {
                assert(r[j] == pt[j - 1]);
            } else {
                assert(r[i] == pt[i - 1] && r[j] == pt[j - 1]);
            }
        }
        assert(r.contains(c)) by {
            let k = choose|k: int| 0 <= k < pt.len() && pt[k] == c;
            assert(r[k + 1] == c);
        }
        assert forall|e: ChangeV| acc.contains(e) && !same_pos(e, c) implies r.contains(e) by {
            let k = choose|k: int| 0 <= k < acc.len() && acc[k] == e;
            if k == 0 {
                assert(r[0] == e);
            } else {
                assert(t[k - 1] == e);
                assert(t.contains(e));
                let m = choose|m: int| 0 <= m < pt.len() && pt[m] == e;
                assert(r[m + 1] == e);
            }
        }
        assert forall|e: ChangeV| r.contains(e) implies e == c || (acc.contains(e) && !same_pos(e, c)) by {
            let k = choose|k: int| 0 <= k < r.len() && r[k] == e;
            if k == 0 {
                assert(acc[0] == e);
            } else {
                assert(pt[k - 1] == e);
                assert(pt.contains(e));
                if e != c {
                    assert(t.contains(e));
                    let m = choose|m: int| 0 <= m < t.len() && t[m] == e;
                    assert(acc[m + 1] == e);
                }
            }
        }
    }
}

/// Merging changes by position lists each cell once, in position order, and
/// keeps exactly the last change made to each cell.
#[verifier::rlimit(40)]
pub proof fn law_merge_keeps_last_writes(cs: Seq<ChangeV>)
    ensures
        pos_sorted(merged_changes(cs)),
        forall|k: int| last_write(cs, k) ==> merged_changes(cs).contains(#[trigger] cs[k]),
        forall|e: ChangeV|
            merged_changes(cs).contains(e) ==> exists|k: int| last_write(cs, k) && cs[k] == e,
    decreases cs.len(),
{
    if cs.len() > 0 {
        let d = cs.drop_last();
        let c = cs.last();
        let n = cs.len() - 1;
        law_merge_keeps_last_writes(d);
        lemma_put_change(merged_changes(d), c);
        let m = merged_changes(cs);
        assert(m == put_change(merged_changes(d), c));
        assert forall|k: int| last_write(cs, k) implies m.contains(#[trigger] cs[k]) by {
            if k < n {
                assert(!same_pos(cs[n], cs[k]));
                assert forall|j: int| k < j < d.len() implies !same_pos(#[trigger] d[j], d[k]) by {
                    assert(d[j] == cs[j]);
                }
                assert(last_write(d, k));
                assert(d[k] == cs[k]);
            }
        }
        assert forall|e: ChangeV| m.contains(e) implies exists|k: int| last_write(cs, k) && cs[k] == e by {
            if e == c {
                assert(last_write(cs, n));
            } else {
                assert(merged_changes(d).contains(e));
                assert(exists|k: int| last_write(d, k) && d[k] == e);
                let k = choose|k: int| last_write(d, k) && d[k] == e;
                assert(cs[k] == e);
                assert forall|j: int| k < j < cs.len() implies !same_pos(#[trigger] cs[j], cs[k]) by {
                    if j < n {
                        assert(d[j] == cs[j]);
                    }
                }
                assert(last_write(cs, k));
            }
        }
    }
}

/// A coordinate that stays an `i32` for every step `1..=count` of `d`.
pub open spec fn steps_fit(base: i32, d: i32, count: i32) -> bool {
    i32::MIN <= base + d <= i32::MAX && i32::MIN <= base + d * count <= i32::MAX
}

/// Where the copies of a stack go: the box's minimum corner moved `i` times
/// by (`dx`, `dy`, `dz`), for `i` from 1 to `count`.
pub open spec fn stack_origins_spec(b: Aabb, count: i32, dx: i32, dy: i32, dz: i32) -> Seq<
    (i32, i32, i32),
> {
    Seq::new(
        count as nat,
        |k: int|
            (
                (b.min_x + dx * (k + 1)) as i32,
                (b.min_y + dy * (k + 1)) as i32,
                (b.min_z + dz * (k + 1)) as i32,
            ),
    )
}

proof fn lemma_step_between(base: i32, d: i32, count: i32, i: int)
    requires
        1 <= i <= count,
        steps_fit(base, d, count),
    ensures
        i32::MIN <= base + d * i <= i32::MAX,
{
    if d >= 0 {
        assert(d * 1 <= d * i <= d * count) by (nonlinear_arith)
            requires
                d >= 0,
                1 <= i <= count,
        ;
    } else {
        assert(d * count <= d * i <= d * 1) by (nonlinear_arith)
            requires
                d < 0,
                1 <= i <= count,
        ;
    }
}

/// The paste origins of `stack`: an error unless `count` is at least one.
pub fn stack_origins(
    x1: i32,
    y1: i32,
    z1: i32,
    x2: i32,
    y2: i32,
    z2: i32,
    count: i32,
    dx: i32,
    dy: i32,
    dz: i32,
) -> (r: Result<Vec<(i32, i32, i32)>, String>)
    requires
        count >= 1 ==> {
            let b = Aabb::from_corners_spec(x1, y1, z1, x2, y2, z2);
            steps_fit(b.min_x, dx, count) && steps_fit(b.min_y, dy, count) && steps_fit(
                b.min_z,
                dz,
                count,
            )
        },
    ensures
        count < 1 ==> r is Err && r->Err_0@ == "stack count must be >= 1"@,
        count >= 1 ==> r is Ok && r->Ok_0@ == stack_origins_spec(
            Aabb::from_corners_spec(x1, y1, z1, x2, y2, z2),
            count,
            dx,
            dy,
            dz,
        ),
{
    if count < 1 {
        return Err(string_from("stack count must be >= 1"));
    }
    let b = Aabb::from_corners(x1, y1, z1, x2, y2, z2);
    let ghost want = stack_origins_spec(b, count, dx, dy, dz);
    let mut out: Vec<(i32, i32, i32)> = Vec::new();
    let mut i: i64 = 1;
    while i <= count as i64
        invariant
            1 <= i <= count + 1,
            count >= 1,
            steps_fit(b.min_x, dx, count) && steps_fit(b.min_y, dy, count) && steps_fit(
                b.min_z,
                dz,
                count,
            ),
            want == stack_origins_spec(b, count, dx, dy, dz),
            out@ == want.take(i - 1),
        decreases count + 1 - i,
    {
        proof {
            lemma_step_between(b.min_x, dx, count, i as int);
            lemma_step_between(b.min_y, dy, count, i as int);
            lemma_step_between(b.min_z, dz, count, i as int);
        }
        assert(-2147483648 * 2147483648 <= dx * i <= 2147483648 * 2147483648) by (nonlinear_arith)
            requires
                i32::MIN <= dx <= i32::MAX,
                1 <= i <= i32::MAX,
        ;
        assert(-2147483648 * 2147483648 <= dy * i <= 2147483648 * 2147483648) by (nonlinear_arith)
            requires
                i32::MIN <= dy <= i32::MAX,
                1 <= i <= i32::MAX,
        ;
        assert(-2147483648 * 2147483648 <= dz * i <= 2147483648 * 2147483648) by (nonlinear_arith)
            requires
                i32::MIN <= dz <= i32::MAX,
                1 <= i <= i32::MAX,
        ;
        let ox = (b.min_x as i64 + dx as i64 * i) as i32;
        let oy = (b.min_y as i64 + dy as i64 * i) as i32;
        let oz = (b.min_z as i64 + dz as i64 * i) as i32;
        out.push((ox, oy, oz));
        assert(out@ =~= want.take(i as int));
        i += 1;
    }
    assert(want.take(count as int) =~= want);
    Ok(out)
}

} // verus!
