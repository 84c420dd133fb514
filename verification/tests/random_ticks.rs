use mcaedit_core::action::BlockChange;
use mcaedit_core::blockstate::BlockState;
use mcaedit_core::tick::{fastrand_u32, grow_at, step_waits, tick_at, tick_sample, GrowSight, FASTRAND_SEED};
use mcaedit_core::ops::Aabb;
use mcaedit_core::smooth::{smooth_heights, smooth_plan};

fn b(s: &str) -> BlockState {
    BlockState::parse(s).unwrap()
}

fn sight(above: &str, below1: &str, below2: &str, sides: [&str; 4]) -> GrowSight {
    GrowSight {
        above: b(above),
        below1: b(below1),
        below2: b(below2),
        east: b(sides[0]),
        west: b(sides[1]),
        south: b(sides[2]),
        north: b(sides[3]),
    }
}

/// A generator state whose next draw `r` satisfies `pred`.
fn state_where(pred: impl Fn(u32) -> bool) -> u64 {
    let mut s = FASTRAND_SEED;
    loop {
        let (_, r) = fastrand_u32(s);
        if pred(r) {
            return s;
        }
        s = fastrand_u32(s).0;
    }
}

fn compact(cs: &[BlockChange]) -> Vec<(i32, i32, i32, String, String)> {
    cs.iter()
        .map(|c| (c.x, c.y, c.z, c.before.to_compact(), c.after.to_compact()))
        .collect()
}

#[test]
fn crop_ages_on_even_draw() {
    let air = sight("minecraft:air", "minecraft:dirt", "minecraft:dirt", ["minecraft:air"; 4]);
    let wheat = b("minecraft:wheat[age=3]");
    let s = state_where(|r| r % 2 == 0);
    let (next, out) = grow_at(&wheat, 1, 64, 2, s, &air);
    assert_eq!(next, fastrand_u32(s).0);
    assert_eq!(
        compact(&out.unwrap()),
        vec![(1, 64, 2, "minecraft:wheat[age=3]".to_string(), "minecraft:wheat[age=4]".to_string())]
    );
    let s = state_where(|r| r % 2 == 1);
    let (next, out) = grow_at(&wheat, 1, 64, 2, s, &air);
    assert_eq!(next, fastrand_u32(s).0);
    assert!(out.is_none());
}

#[test]
fn ripe_crop_draws_nothing() {
    let air = sight("minecraft:air", "minecraft:dirt", "minecraft:dirt", ["minecraft:air"; 4]);
    let ripe = b("minecraft:wheat[age=7]");
    let (next, out) = grow_at(&ripe, 0, 0, 0, 42, &air);
    assert_eq!(next, 42);
    assert!(out.is_none());
}

#[test]
fn cane_grows_up_to_three_high() {
    let cane = b("minecraft:sugar_cane");
    let s = state_where(|r| r % 3 == 0);
    let short = sight("minecraft:air", "minecraft:sugar_cane", "minecraft:sand", ["minecraft:air"; 4]);
    let (_, out) = grow_at(&cane, 5, 70, -3, s, &short);
    assert_eq!(
        compact(&out.unwrap()),
        vec![(5, 71, -3, "minecraft:air".to_string(), "minecraft:sugar_cane".to_string())]
    );
    let tall = sight(
        "minecraft:air",
        "minecraft:sugar_cane",
        "minecraft:sugar_cane",
        ["minecraft:air"; 4],
    );
    let (next, out) = grow_at(&cane, 5, 70, -3, s, &tall);
    assert_eq!(next, s);
    assert!(out.is_none());
    let covered = sight("minecraft:stone", "minecraft:sand", "minecraft:sand", ["minecraft:air"; 4]);
    let (next, out) = grow_at(&cane, 5, 70, -3, s, &covered);
    assert_eq!(next, s);
    assert!(out.is_none());
}

#[test]
fn sapling_becomes_bamboo() {
    let sap = b("minecraft:bamboo_sapling");
    let s = state_where(|r| r % 3 == 0);
    let open = sight("minecraft:air", "minecraft:dirt", "minecraft:dirt", ["minecraft:air"; 4]);
    let (_, out) = grow_at(&sap, 0, 10, 0, s, &open);
    assert_eq!(
        compact(&out.unwrap()),
        vec![
            (0, 10, 0, "minecraft:bamboo_sapling".to_string(), "minecraft:bamboo".to_string()),
            (0, 11, 0, "minecraft:air".to_string(), "minecraft:bamboo".to_string()),
        ]
    );
}

#[test]
fn grass_spreads_onto_dirt_beside_it() {
    let grass = b("minecraft:grass_block[snowy=false]");
    let around = sight(
        "minecraft:air",
        "minecraft:dirt",
        "minecraft:dirt",
        ["minecraft:dirt", "minecraft:dirt", "minecraft:dirt", "minecraft:dirt"],
    );
    // first draw picks the side (+x), second must be a multiple of three
    let mut s = FASTRAND_SEED;
    loop {
        let (s1, r1) = fastrand_u32(s);
        let (_, r2) = fastrand_u32(s1);
        if r1 % 4 == 0 && r2 % 3 == 0 {
            break;
        }
        s = s1;
    }
    let (next, out) = grow_at(&grass, 3, 60, 3, s, &around);
    assert_eq!(next, fastrand_u32(fastrand_u32(s).0).0);
    assert_eq!(
        compact(&out.unwrap()),
        vec![(4, 60, 3, "minecraft:dirt".to_string(), "minecraft:grass_block[snowy=false]".to_string())]
    );
}

#[test]
fn farmland_dries_and_stone_rests() {
    let wet = b("minecraft:farmland[moisture=7]");
    let s = state_where(|r| r % 4 == 0);
    let open = sight("minecraft:air", "minecraft:dirt", "minecraft:dirt", ["minecraft:air"; 4]);
    let (_, out) = grow_at(&wet, 0, 0, 0, s, &open);
    assert_eq!(
        compact(&out.unwrap()),
        vec![(0, 0, 0, "minecraft:farmland[moisture=7]".to_string(), "minecraft:farmland[moisture=6]".to_string())]
    );
    let dry = b("minecraft:farmland[moisture=0]");
    assert_eq!(grow_at(&dry, 0, 0, 0, s, &open).0, s);
    let stone = b("minecraft:stone");
    let (next, out) = grow_at(&stone, 0, 0, 0, s, &open);
    assert_eq!(next, s);
    assert!(out.is_none());
}

#[test]
fn tick_queue_steps_down() {
    let (kept, due) = step_waits(&vec![3, 0, 1, -2, 5000000000]);
    assert_eq!(due, 2);
    assert_eq!(kept, vec![(0, 2), (2, 0), (4, 5000000000i64.wrapping_sub(1) as i32)]);
}

#[test]
fn tick_samples_from_draw_bits() {
    assert_eq!(tick_sample(2, -1, 4, 0x0000_0a53), (35, 69, -6));
    assert_eq!(tick_sample(0, 0, -4, 0xffff_ffff), (15, -49, 15));
}

#[test]
fn tick_at_skips_untickable_blocks() {
    let air = sight("minecraft:air", "minecraft:dirt", "minecraft:dirt", ["minecraft:air"; 4]);
    let (cand, next, out) = tick_at(&b("minecraft:stone"), 0, 0, 0, 99, &air);
    assert!(!cand);
    assert_eq!(next, 99);
    assert!(out.is_none());
    let s = state_where(|r| r % 2 == 0);
    let (cand, next, out) = tick_at(&b("minecraft:carrots[age=0]"), 1, 2, 3, s, &air);
    assert!(cand);
    assert_eq!(next, fastrand_u32(s).0);
    assert_eq!(out.unwrap()[0].after.to_compact(), "minecraft:carrots[age=1]");
}

#[test]
fn heights_smooth_to_neighbourhood_means() {
    // 3 x 1 grid: mean of [2, -1] rounds 0.5 up to 1; [2, -1, 2] gives 1
    assert_eq!(smooth_heights(&vec![2, -1, 2], 3, 1, 1, 1, -1, 3), vec![1, 1, 1]);
    // halves round away from zero; the result stays within the bounds
    assert_eq!(smooth_heights(&vec![-2, -1], 2, 1, 1, 1, -5, 5), vec![-2, -2]);
    assert_eq!(smooth_heights(&vec![10, 10], 2, 1, 3, 0, -1, 4), vec![4, 4]);
    // 2 x 2 grid with kernel 1: every column sees the whole grid
    assert_eq!(smooth_heights(&vec![0, 4, 4, 4], 2, 2, 1, 1, -1, 10), vec![3, 3, 3, 3]);
}

#[test]
fn smooth_plan_raises_and_lowers_columns() {
    let stone = b("minecraft:stone");
    let air = b("minecraft:air");
    let col = |n: usize| -> Vec<BlockState> {
        (0..4).map(|y| if y < n { stone.clone() } else { air.clone() }).collect()
    };
    let bx = Aabb { min_x: 0, min_y: 0, min_z: 0, max_x: 2, max_y: 3, max_z: 0 };
    let plan = smooth_plan(bx, &vec![col(3), col(0), col(3)], 1, 1);
    let got: Vec<(i32, i32, i32, String, String)> = plan
        .iter()
        .map(|c| (c.x, c.y, c.z, c.before.to_compact(), c.after.to_compact()))
        .collect();
    assert_eq!(
        got,
        vec![
            (0, 2, 0, "minecraft:stone".to_string(), "minecraft:air".to_string()),
            (1, 0, 0, "minecraft:air".to_string(), "minecraft:stone".to_string()),
            (1, 1, 0, "minecraft:air".to_string(), "minecraft:stone".to_string()),
            (2, 2, 0, "minecraft:stone".to_string(), "minecraft:air".to_string()),
        ]
    );
    let flat = smooth_plan(bx, &vec![col(2), col(2), col(2)], 4, 2);
    assert!(flat.is_empty());
}
