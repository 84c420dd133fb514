//! Offline random-tick rules: which blocks react to random ticks, how far
//! crops age, and the pseudo-random generator the ticks sample with.

use vstd::prelude::*;
use crate::blockstate::{get_prop, props_get, props_insert, props_view, strip_ns, BlockState, BlockStateView};
use crate::action::BlockChange;
use crate::blockstate::is_air_like_view;
use crate::text::{
    append, append_str, chars_of, eq_chars, eq_str, nat_text, parse_in_range, parse_int_chars, push_nat,
    rsplit_once_chars, string_from, string_of,
};

verus! {

/// Counters of an offline tick run.
#[derive(Clone, Debug, Default)]
pub struct OfflineTickStats {
    pub chunks: usize,
    pub samples: usize,
    pub candidates: usize,
    pub mutations: usize,
    pub due_block: usize,
    pub due_fluid: usize,
}

/// Block names (without namespace) that react to random ticks.
pub open spec fn tickable_name(n: Seq<char>) -> bool {
    n == "wheat"@ || n == "carrots"@ || n == "potatoes"@ || n == "beetroots"@ || n
        == "nether_wart"@ || n == "sweet_berry_bush"@ || n == "cocoa"@ || n == "sugar_cane"@ || n
        == "cactus"@ || n == "kelp"@ || n == "bamboo"@ || n == "bamboo_sapling"@ || n
        == "melon_stem"@ || n == "pumpkin_stem"@ || n == "grass_block"@ || n == "mycelium"@ || n
        == "farmland"@ || n == "chorus_flower"@
}

/// The name without its namespace (after the last `:`).
pub fn strip_ns_text(name: &str) -> (r: Vec<char>)
    ensures
        r@ == strip_ns(name@),
{
    let n = chars_of(name);
    match rsplit_once_chars(&n, ':') {
        Some((_, b)) => b,
        None => n,
    }
}

/// Whether random ticks can change this block.
pub fn is_random_tickable(block: &BlockState) -> (r: bool)
    ensures
        r == tickable_name(strip_ns(block@.name)),
{
    let n = strip_ns_text(block.name().as_str());
    eq_str(&n, "wheat") || eq_str(&n, "carrots") || eq_str(&n, "potatoes") || eq_str(&n, "beetroots")
        || eq_str(&n, "nether_wart") || eq_str(&n, "sweet_berry_bush") || eq_str(&n, "cocoa")
        || eq_str(&n, "sugar_cane") || eq_str(&n, "cactus") || eq_str(&n, "kelp") || eq_str(
        &n,
        "bamboo",
    ) || eq_str(&n, "bamboo_sapling") || eq_str(&n, "melon_stem") || eq_str(&n, "pumpkin_stem")
        || eq_str(&n, "grass_block") || eq_str(&n, "mycelium") || eq_str(&n, "farmland") || eq_str(
        &n,
        "chorus_flower",
    )
}

/// Largest `age` a crop reaches, by name without namespace.
pub open spec fn age_limit(n: Seq<char>) -> Option<u8> {
    if n == "wheat"@ || n == "carrots"@ || n == "potatoes"@ || n == "melon_stem"@ || n
        == "pumpkin_stem"@ {
        Some(7)
    } else if n == "beetroots"@ || n == "nether_wart"@ || n == "sweet_berry_bush"@ {
        Some(3)
    } else if n == "cocoa"@ {
        Some(2)
    } else if n == "kelp"@ {
        Some(25)
    } else if n == "chorus_flower"@ {
        Some(5)
    } else {
        None
    }
}

/// Largest `age` of the named block, if it ages.
pub fn age_max(name: &str) -> (r: Option<u8>)
    ensures
        r == age_limit(strip_ns(name@)),
{
    let n = strip_ns_text(name);
    if eq_str(&n, "wheat") || eq_str(&n, "carrots") || eq_str(&n, "potatoes") || eq_str(
        &n,
        "melon_stem",
    ) || eq_str(&n, "pumpkin_stem") {
        Some(7)
    } else if eq_str(&n, "beetroots") || eq_str(&n, "nether_wart") || eq_str(&n, "sweet_berry_bush") {
        Some(3)
    } else if eq_str(&n, "cocoa") {
        Some(2)
    } else if eq_str(&n, "kelp") {
        Some(25)
    } else if eq_str(&n, "chorus_flower") {
        Some(5)
    } else {
        None
    }
}

/// A property read as a `u8` (`None` if absent or not one).
pub open spec fn prop_u8_spec(b: BlockStateView, key: Seq<char>) -> Option<u8> {
    match props_get(b.props, key) {
        Some(v) => match parse_in_range(v, false, 0, 255) {
            Some(n) => Some(n as u8),
            None => None,
        },
        None => None,
    }
}

/// A property read as a `u8`.
pub fn prop_u8(block: &BlockState, key: &str) -> (r: Option<u8>)
    ensures
        r == prop_u8_spec(block@, key@),
{
    match get_prop(block.properties(), key) {
        None => None,
        Some(v) => {
            let c = chars_of(v.as_str());
            match parse_int_chars(&c, false, 0, 255) {
                Some(n) => Some(n as u8),
                None => None,
            }
        },
    }
}

/// The age `steps` further on, capped at the block's limit.
pub open spec fn aged(age: u8, steps: u8, max: u8) -> u8 {
    let s = if age + steps > 255 {
        255
    } else {
        age + steps
    };
    if s < max {
        s as u8
    } else {
        max
    }
}

/// What force-ageing gives: `None` for blocks that do not age or are
/// already at the capped age, else the state with the new `age`.
pub open spec fn force_age_spec(b: BlockStateView, steps: u8) -> Option<BlockStateView> {
    match age_limit(strip_ns(b.name)) {
        None => None,
        Some(max) => {
            let age = match prop_u8_spec(b, "age"@) {
                Some(a) => a,
                None => 0,
            };
            let next = aged(age, steps, max);
            if next == age {
                None
            } else {
                Some(
                    BlockStateView {
                        name: b.name,
                        props: props_insert(b.props, "age"@, nat_text(next as nat)),
                    },
                )
            }
        },
    }
}

/// Deterministic helper for tests: force-advance crop age by `steps` (clamped).
pub fn force_age_steps(block: &BlockState, steps: u8) -> (r: Option<BlockState>)
    ensures
        match force_age_spec(block@, steps) {
            Some(v) => r is Some && r->Some_0@ == v,
            None => r is None,
        },
{
    let max = match age_max(block.name().as_str()) {
        Some(m) => m,
        None => return None,
    };
    let age = match prop_u8(block, "age") {
        Some(a) => a,
        None => 0,
    };
    let sum = age.saturating_add(steps);
    let next = if sum < max {
        sum
    } else {
        max
    };
    if next == age {
        return None;
    }
    let mut digits: Vec<char> = Vec::new();
    push_nat(&mut digits, next as u64);
    Some(block.with_prop(string_from("age"), string_of(&digits)))
}

/// One xorshift64 step (shifts 13, 7, 17).
pub open spec fn xorshift(x: u64) -> u64 {
    let a = x ^ (x << 13u64);
    let b = a ^ (a >> 7u64);
    b ^ (b << 17u64)
}

/// The generator's seed.
pub const FASTRAND_SEED: u64 = 0x9e37_79b9_7f4a_7c15;

/// Advances the random-tick generator: the next state and the 32-bit
/// sample drawn from it (its low half).
pub fn fastrand_u32(state: u64) -> (r: (u64, u32))
    ensures
        r.0 == xorshift(state),
        r.1 == xorshift(state) as u32,
{
    let mut x = state;
    x = x ^ (x << 13u64);
    x = x ^ (x >> 7u64);
    x = x ^ (x << 17u64);
    (x, x as u32)
}

/// Force-ageing never passes the block's age limit and never lowers its age.
pub proof fn law_force_age_bounded(age: u8, steps: u8, max: u8)
    requires
        age < max,
    ensures
        age <= aged(age, steps, max) <= max,
        steps > 0 ==> aged(age, steps, max) > age,
{
}

/// What a random tick at a block sees around it: the block above, the two
/// below, and the four beside it (+x, -x, +z, -z).
#[derive(Clone, Debug)]
pub struct GrowSight {
    pub above: BlockState,
    pub below1: BlockState,
    pub below2: BlockState,
    pub east: BlockState,
    pub west: BlockState,
    pub south: BlockState,
    pub north: BlockState,
}

/// One recorded change: position, state before, state after.
pub type ChangeView = (i32, i32, i32, BlockStateView, BlockStateView);

/// One draw of the generator: its next state and the sample.
pub open spec fn draw(s: u64) -> (u64, u32) {
    (xorshift(s), xorshift(s) as u32)
}

/// A plain `minecraft:` block with no properties.
pub open spec fn plain_block(name: Seq<char>) -> BlockStateView {
    BlockStateView { name: "minecraft:"@ + name, props: seq![] }
}

/// The neighbour in direction `d` (0: +x, 1: -x, 2: +z, 3: -z) and its offset.
pub open spec fn side_of(sight: GrowSight, d: u32) -> (i32, i32, BlockStateView) {
    if d == 0 {
        (1, 0, sight.east@)
    } else if d == 1 {
        (-1i32, 0i32, sight.west@)
    } else if d == 2 {
        (0, 1, sight.south@)
    } else {
        (0i32, -1i32, sight.north@)
    }
}

/// `b` with property `key` set to the decimal text of `v`.
pub open spec fn with_number(b: BlockStateView, key: Seq<char>, v: nat) -> BlockStateView {
    BlockStateView { name: b.name, props: props_insert(b.props, key, nat_text(v)) }
}

/// What one random tick does to block `b` at (`x`, `y`, `z`), drawing from
/// the generator in state `s`: the generator's next state and the changes,
/// if the block grows or spreads.
pub open spec fn grow_spec(b: BlockStateView, x: i32, y: i32, z: i32, s: u64, sight: GrowSight) -> (
    u64,
    Option<Seq<ChangeView>>,
) {
    let name = strip_ns(b.name);
    match age_limit(name) {
        Some(max) => {
            let age = match prop_u8_spec(b, "age"@) {
                Some(a) => a,
                None => 0,
            };
            if age < max {
                let (s1, r) = draw(s);
                if r % 2 == 0 {
                    (s1, Some(seq![(x, y, z, b, with_number(b, "age"@, (age + 1) as nat))]))
                } else {
                    (s1, None)
                }
            } else {
                (s, None)
            }
        },
        None => {
            if name == "sugar_cane"@ || name == "cactus"@ || name == "bamboo"@ {
                if !is_air_like_view(sight.above@) {
                    (s, None)
                } else if strip_ns(sight.below1@.name) == name && strip_ns(sight.below2@.name)
                    == name {
                    (s, None)
                } else {
                    let (s1, r) = draw(s);
                    if r % 3 != 0 {
                        (s1, None)
                    } else {
                        (s1, Some(seq![(x, (y + 1) as i32, z, sight.above@, plain_block(name))]))
                    }
                }
            } else if name == "bamboo_sapling"@ {
                if is_air_like_view(sight.above@) {
                    let (s1, r) = draw(s);
                    if r % 3 == 0 {
                        (
                            s1,
                            Some(
                                seq![
                                    (x, y, z, b, plain_block("bamboo"@)),
                                    (x, (y + 1) as i32, z, sight.above@, plain_block("bamboo"@)),
                                ],
                            ),
                        )
                    } else {
                        (s1, None)
                    }
                } else {
                    (s, None)
                }
            } else if name == "grass_block"@ || name == "mycelium"@ {
                let (s1, r) = draw(s);
                let (dx, dz, target) = side_of(sight, r % 4);
                if strip_ns(target.name) == "dirt"@ {
                    let (s2, r2) = draw(s1);
                    if r2 % 3 == 0 {
                        (s2, Some(seq![((x + dx) as i32, y, (z + dz) as i32, target, b)]))
                    } else {
                        (s2, None)
                    }
                } else {
                    (s1, None)
                }
            } else if name == "farmland"@ {
                let m = match prop_u8_spec(b, "moisture"@) {
                    Some(v) => v,
                    None => 0,
                };
                if m > 0 {
                    let (s1, r) = draw(s);
                    if r % 4 == 0 {
                        (s1, Some(seq![(x, y, z, b, with_number(b, "moisture"@, (m - 1) as nat))]))
                    } else {
                        (s1, None)
                    }
                } else {
                    (s, None)
                }
            } else {
                (s, None)
            }
        },
    }
}

fn numbered(block: &BlockState, key: &str, v: u8) -> (r: BlockState)
    ensures
        r@ == with_number(block@, key@, v as nat),
{
    let mut digits: Vec<char> = Vec::new();
    push_nat(&mut digits, v as u64);
    block.with_prop(string_from(key), string_of(&digits))
}

fn plain(name: &[char]) -> (r: BlockState)
    ensures
        r@ == plain_block(name@),
{
    let mut full: Vec<char> = Vec::new();
    append_str(&mut full, "minecraft:");
    append(&mut full, name);
    proof {
        reveal_strlit("minecraft:");
    }
    let empty: Vec<(String, String)> = Vec::new();
    assert(props_view(empty@) =~= Seq::<(Seq<char>, Seq<char>)>::empty());
    let r = BlockState::from_parts(string_of(&full), empty);
    r
}

fn change(x: i32, y: i32, z: i32, before: &BlockState, after: BlockState) -> (r: BlockChange)
    ensures
        (r.x, r.y, r.z, r.before@, r.after@) == (x, y, z, before@, after@),
{
    BlockChange { x, y, z, before: before.duplicate(), after }
}

/// One random tick of `before` at (`x`, `y`, `z`): crops age, canes, cacti
/// and bamboo grow upward to three high, saplings shoot, grass and mycelium
/// spread onto dirt, and farmland dries. Draws from the generator in state
/// `state` and returns its next state with the changes, if any.
pub fn grow_at(before: &BlockState, x: i32, y: i32, z: i32, state: u64, sight: &GrowSight) -> (r: (
    u64,
    Option<Vec<BlockChange>>,
))
    requires
        i32::MIN < x < i32::MAX,
        i32::MIN < y < i32::MAX,
        i32::MIN < z < i32::MAX,
    ensures
        r.0 == grow_spec(before@, x, y, z, state, *sight).0,
        match grow_spec(before@, x, y, z, state, *sight).1 {
            Some(cs) => r.1 is Some && r.1->Some_0@.map_values(
                |c: BlockChange| (c.x, c.y, c.z, c.before@, c.after@),
            ) == cs,
            None => r.1 is None,
        },
{
    let name = strip_ns_text(before.name().as_str());
    proof {
        reveal_strlit("age");
        reveal_strlit("moisture");
    }
    if let Some(max_age) = age_max(before.name().as_str()) {
        let age = match prop_u8(before, "age") {
            Some(a) => a,
            None => 0,
        };
        if age < max_age {
            let (s1, r) = fastrand_u32(state);
            if r % 2 == 0 {
                let after = numbered(before, "age", age + 1);
                let v = vec![change(x, y, z, before, after)];
                assert(v@.map_values(|c: BlockChange| (c.x, c.y, c.z, c.before@, c.after@))
                    =~= grow_spec(before@, x, y, z, state, *sight).1->Some_0);
                return (s1, Some(v));
            }
            return (s1, None);
        }
        return (state, None);
    }
    if eq_str(&name, "sugar_cane") || eq_str(&name, "cactus") || eq_str(&name, "bamboo") {
        if !sight.above.is_air_like() {
            return (state, None);
        }
        let b1 = strip_ns_text(sight.below1.name().as_str());
        let b2 = strip_ns_text(sight.below2.name().as_str());
        if eq_chars(&b1, &name) && eq_chars(&b2, &name) {
            return (state, None);
        }
        let (s1, r) = fastrand_u32(state);
        if r % 3 != 0 {
            return (s1, None);
        }
        let v = vec![change(x, y + 1, z, &sight.above, plain(&name))];
        assert(v@.map_values(|c: BlockChange| (c.x, c.y, c.z, c.before@, c.after@))
            =~= grow_spec(before@, x, y, z, state, *sight).1->Some_0);
        return (s1, Some(v));
    }
    if eq_str(&name, "bamboo_sapling") {
        if sight.above.is_air_like() {
            let (s1, r) = fastrand_u32(state);
            if r % 3 == 0 {
                let bamboo = chars_of("bamboo");
                proof {
                    reveal_strlit("bamboo");
                }
                let v = vec![
                    change(x, y, z, before, plain(&bamboo)),
                    change(x, y + 1, z, &sight.above, plain(&bamboo)),
                ];
                assert(v@.map_values(|c: BlockChange| (c.x, c.y, c.z, c.before@, c.after@))
                    =~= grow_spec(before@, x, y, z, state, *sight).1->Some_0);
                return (s1, Some(v));
            }
            return (s1, None);
        }
        return (state, None);
    }
    if eq_str(&name, "grass_block") || eq_str(&name, "mycelium") {
        let (s1, r) = fastrand_u32(state);
        let d = r % 4;
        let (dx, dz, target) = if d == 0 {
            (1i32, 0i32, &sight.east)
        } else if d == 1 {
            (-1i32, 0i32, &sight.west)
        } else if d == 2 {
            (0i32, 1i32, &sight.south)
        } else {
            (0i32, -1i32, &sight.north)
        };
        let tn = strip_ns_text(target.name().as_str());
        if eq_str(&tn, "dirt") {
            let (s2, r2) = fastrand_u32(s1);
            if r2 % 3 == 0 {
                let v = vec![change(x + dx, y, z + dz, target, before.duplicate())];
                assert(v@.map_values(|c: BlockChange| (c.x, c.y, c.z, c.before@, c.after@))
                    =~= grow_spec(before@, x, y, z, state, *sight).1->Some_0);
                return (s2, Some(v));
            }
            return (s2, None);
        }
        return (s1, None);
    }
    if eq_str(&name, "farmland") {
        let m = match prop_u8(before, "moisture") {
            Some(v) => v,
            None => 0,
        };
        if m > 0 {
            let (s1, r) = fastrand_u32(state);
            if r % 4 == 0 {
                let after = numbered(before, "moisture", m - 1);
                let v = vec![change(x, y, z, before, after)];
                assert(v@.map_values(|c: BlockChange| (c.x, c.y, c.z, c.before@, c.after@))
                    =~= grow_spec(before@, x, y, z, state, *sight).1->Some_0);
                return (s1, Some(v));
            }
            return (s1, None);
        }
        return (state, None);
    }
    (state, None)
}

/// One step of a scheduled-tick queue whose waits are `waits`: each wait goes
/// down by one; entries whose wait falls below zero are due and leave the
/// queue. The survivors, as (index, new wait), and the number due.
pub open spec fn step_waits_spec(waits: Seq<i64>) -> (Seq<(usize, i32)>, nat)
    decreases waits.len(),
{
    if waits.len() == 0 {
        (seq![], 0)
    } else {
        let (kept, due) = step_waits_spec(waits.drop_last());
        let w = waits.last() - 1;
        if w < 0 {
            (kept, due + 1)
        } else {
            (kept.push(((waits.len() - 1) as usize, w as i32)), due)
        }
    }
}

/// Steps a scheduled-tick queue by one round (see `step_waits_spec`).
pub fn step_waits(waits: &Vec<i64>) -> (r: (Vec<(usize, i32)>, usize))
    requires
        forall|i: int| 0 <= i < waits@.len() ==> waits@[i] > i64::MIN,
    ensures
        r.0@ == step_waits_spec(waits@).0,
        r.1 == step_waits_spec(waits@).1,
{
    let mut kept: Vec<(usize, i32)> = Vec::new();
    let mut due: usize = 0;
    let mut i: usize = 0;
    assert(waits@.take(0) =~= Seq::<i64>::empty());
    while i < waits.len()
        invariant
            i <= waits@.len(),
            forall|k: int| 0 <= k < waits@.len() ==> waits@[k] > i64::MIN,
            kept@ == step_waits_spec(waits@.take(i as int)).0,
            due == step_waits_spec(waits@.take(i as int)).1,
            due <= i,
        decreases waits.len() - i,
    {
        assert(waits@.take(i + 1).drop_last() =~= waits@.take(i as int));
        assert(waits@.take(i + 1).last() == waits@[i as int]);
        let w = waits[i] - 1;
        if w < 0 {
            due = due + 1;
        } else {
            kept.push((i, w as i32));
        }
        i += 1;
    }
    assert(waits@.take(waits@.len() as int) =~= waits@);
    (kept, due)
}

/// A step of a tick queue loses no entry: each one either stays, in order
/// and one wait shorter, or is counted due.
pub proof fn law_step_waits_partition(waits: Seq<i64>)
    requires
        waits.len() <= usize::MAX,
    ensures
        step_waits_spec(waits).0.len() + step_waits_spec(waits).1 == waits.len(),
        forall|k: int|
            0 <= k < step_waits_spec(waits).0.len() ==> {
                let e = #[trigger] step_waits_spec(waits).0[k];
                &&& 0 <= e.0 < waits.len()
                &&& waits[e.0 as int] >= 1
                &&& e.1 == (waits[e.0 as int] - 1) as i32
            },
        forall|k: int, l: int|
            0 <= k < l < step_waits_spec(waits).0.len() ==> step_waits_spec(waits).0[k].0
                < step_waits_spec(waits).0[l].0,
    decreases waits.len(),
{
    if waits.len() > 0 {
        let d = waits.drop_last();
        law_step_waits_partition(d);
        let kept = step_waits_spec(d).0;
        let w = waits.last() - 1;
        let n = (waits.len() - 1) as usize;
        assert(n == waits.len() - 1);
        assert forall|k: int| 0 <= k < kept.len() implies d[kept[k].0 as int] == waits[kept[k].0 as int]
            && kept[k].0 < n by {
            let e = kept[k];
            assert(0 <= e.0 < d.len());
        }
        if w >= 0 {
            let out = kept.push((n, w as i32));
            assert(step_waits_spec(waits).0 == out);
            assert forall|k: int| 0 <= k < out.len() implies {
                let e = #[trigger] out[k];
                &&& 0 <= e.0 < waits.len()
                &&& waits[e.0 as int] >= 1
                &&& e.1 == (waits[e.0 as int] - 1) as i32
            } by {
                if k < kept.len() {
                    assert(out[k] == kept[k]);
                    let e = kept[k];
                    assert(d[e.0 as int] == waits[e.0 as int]);
                }
            }
            assert forall|k: int, l: int| 0 <= k < l < out.len() implies out[k].0 < out[l].0 by {
                if l < kept.len() {
                    assert(out[k] == kept[k] && out[l] == kept[l]);
                } else {
                    assert(out[k] == kept[k]);
                    assert(out[l].0 == n);
                }
            }
        } else {
            assert forall|k: int| 0 <= k < kept.len() implies {
                let e = #[trigger] kept[k];
                &&& 0 <= e.0 < waits.len()
                &&& waits[e.0 as int] >= 1
                &&& e.1 == (waits[e.0 as int] - 1) as i32
            } by {
                let e = kept[k];
                assert(d[e.0 as int] == waits[e.0 as int]);
            }
        }
    }
}

/// The cell a random tick samples in section `sy` of chunk (`cx`, `cz`) from
/// the draw `r`: its low four bits pick x, the next four y, the next four z.
pub open spec fn tick_sample_spec(cx: i32, cz: i32, sy: i8, r: u32) -> (int, int, int) {
    (cx * 16 + r % 16, sy * 16 + (r / 16) % 16, cz * 16 + (r / 256) % 16)
}

/// The cell a random-tick draw `r` lands on (see `tick_sample_spec`).
pub fn tick_sample(cx: i32, cz: i32, sy: i8, r: u32) -> (p: (i32, i32, i32))
    requires
        -0x800_0000 <= cx < 0x800_0000,
        -0x800_0000 <= cz < 0x800_0000,
    ensures
        (p.0 as int, p.1 as int, p.2 as int) == tick_sample_spec(cx, cz, sy, r),
{
    let lx = (r % 16) as i32;
    let ly = ((r / 16) % 16) as i32;
    let lz = ((r / 256) % 16) as i32;
    (cx * 16 + lx, sy as i32 * 16 + ly, cz * 16 + lz)
}

/// One sampled random tick: blocks that do not react to random ticks are
/// left alone without drawing; the others are candidates and grow as
/// `grow_spec` says. Whether it was a candidate, the generator's next
/// state, and the changes.
pub open spec fn tick_at_spec(b: BlockStateView, x: i32, y: i32, z: i32, s: u64, sight: GrowSight) -> (
    bool,
    u64,
    Option<Seq<ChangeView>>,
) {
    if tickable_name(strip_ns(b.name)) {
        (true, grow_spec(b, x, y, z, s, sight).0, grow_spec(b, x, y, z, s, sight).1)
    } else {
        (false, s, None)
    }
}

/// One sampled random tick (see `tick_at_spec`).
pub fn tick_at(before: &BlockState, x: i32, y: i32, z: i32, state: u64, sight: &GrowSight) -> (r: (
    bool,
    u64,
    Option<Vec<BlockChange>>,
))
    requires
        i32::MIN < x < i32::MAX,
        i32::MIN < y < i32::MAX,
        i32::MIN < z < i32::MAX,
    ensures
        r.0 == tick_at_spec(before@, x, y, z, state, *sight).0,
        r.1 == tick_at_spec(before@, x, y, z, state, *sight).1,
        match tick_at_spec(before@, x, y, z, state, *sight).2 {
            Some(cs) => r.2 is Some && r.2->Some_0@.map_values(
                |c: BlockChange| (c.x, c.y, c.z, c.before@, c.after@),
            ) == cs,
            None => r.2 is None,
        },
{
    if !is_random_tickable(before) {
        return (false, state, None);
    }
    let (s, out) = grow_at(before, x, y, z, state, sight);
    (true, s, out)
}


/// Beetroots, nether wart and sweet berry bushes are fully grown at age 3:
/// force-ageing one (by any number of steps) writes an age of at most 3,
/// and one already at age 3 is left as it is.
pub proof fn law_three_stage_crops(b: BlockStateView, steps: u8)
    requires
        strip_ns(b.name) == "beetroots"@ || strip_ns(b.name) == "nether_wart"@ || strip_ns(b.name)
            == "sweet_berry_bush"@,
    ensures
        prop_u8_spec(b, "age"@) == Some(3u8) ==> (force_age_spec(b, steps) is None),
        force_age_spec(b, steps) is Some ==> (exists|k: u8|
            k <= 3 && force_age_spec(b, steps)->Some_0.name == b.name && force_age_spec(b, steps)->Some_0.props
                == props_insert(b.props, "age"@, crate::text::nat_text(k as nat))),
{
    reveal_strlit("beetroots");
    reveal_strlit("nether_wart");
    reveal_strlit("sweet_berry_bush");
    reveal_strlit("wheat");
    reveal_strlit("carrots");
    reveal_strlit("potatoes");
    reveal_strlit("melon_stem");
    reveal_strlit("pumpkin_stem");
    assert("beetroots"@.len() == 9 && "nether_wart"@.len() == 11 && "sweet_berry_bush"@.len() == 16);
    assert("wheat"@.len() == 5 && "carrots"@.len() == 7 && "potatoes"@.len() == 8 && "melon_stem"@.len() == 10
        && "pumpkin_stem"@.len() == 12);
    assert(age_limit(strip_ns(b.name)) == Some(3u8));
    let age = match prop_u8_spec(b, "age"@) {
        Some(a) => a,
        None => 0,
    };
    let next = aged(age, steps, 3);
    assert(next <= 3);
    if force_age_spec(b, steps) is Some {
        let v = force_age_spec(b, steps)->Some_0;
        assert(v.name == b.name && v.props == props_insert(b.props, "age"@, crate::text::nat_text(next as nat)));
    }
}


/// A random tick leaves a fully grown beetroot, nether wart or sweet berry
/// bush (age 3) as it is, and does not draw from the generator.
pub proof fn law_three_stage_crops_stop_growing(b: BlockStateView, x: i32, y: i32, z: i32, s: u64, sight: GrowSight)
    requires
        strip_ns(b.name) == "beetroots"@ || strip_ns(b.name) == "nether_wart"@ || strip_ns(b.name)
            == "sweet_berry_bush"@,
        prop_u8_spec(b, "age"@) == Some(3u8),
    ensures
        grow_spec(b, x, y, z, s, sight) == (s, None::<Seq<ChangeView>>),
{
    reveal_strlit("beetroots");
    reveal_strlit("nether_wart");
    reveal_strlit("sweet_berry_bush");
    reveal_strlit("wheat");
    reveal_strlit("carrots");
    reveal_strlit("potatoes");
    reveal_strlit("melon_stem");
    reveal_strlit("pumpkin_stem");
    assert("beetroots"@.len() == 9 && "nether_wart"@.len() == 11 && "sweet_berry_bush"@.len() == 16);
    assert("wheat"@.len() == 5 && "carrots"@.len() == 7 && "potatoes"@.len() == 8 && "melon_stem"@.len() == 10
        && "pumpkin_stem"@.len() == 12);
    assert(age_limit(strip_ns(b.name)) == Some(3u8));
}

} // verus!
