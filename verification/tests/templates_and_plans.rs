use mcaedit_core::blockstate::BlockState;
use mcaedit_core::build_ops::{grid_columns_plan, roof_rows_plan, stairs_fill_plan};
use mcaedit_core::schem::varints_decodable;
use mcaedit_core::schem_template::{
    block_histogram,
    normalize_block_name, schem_block_data, schem_palette_map, schem_template,
};
use mcaedit_core::structure_template::{structure_block_list, structure_template, StructureBlock};
use mcaedit_core::mask::Mask;
use mcaedit_core::ops::Aabb;
use mcaedit_core::pattern::Pattern;
use mcaedit_core::template::{capture_blocks, paste_changes, paste_fits, Template};
use mcaedit_core::world_plan::{
    merge_by_position, stack_origins,
    block_label, fill_label, plan_pattern_changes, replace_label, replace_mask, slice_lines,
};

fn strip(palette: &[&str], size: [u32; 3], blocks: Vec<u16>) -> Template {
    Template {
        name: "t".to_string(),
        size,
        palette: palette.iter().map(|s| s.to_string()).collect(),
        blocks,
    }
}

#[test]
fn rotate_quarter_turn_moves_cells() {
    let mut t = strip(&["a", "b"], [2, 1, 3], vec![0, 1, 2, 3, 4, 5]);
    t.rotate_yaw(90).unwrap();
    assert_eq!(t.size, [3, 1, 2]);
    assert_eq!(t.blocks, vec![1, 3, 5, 0, 2, 4]);
}

#[test]
fn rotate_four_quarters_is_identity() {
    let original = vec![0, 1, 2, 3, 4, 5, 6, 7, 8, 9, 10, 11];
    let mut t = strip(&["a"], [3, 2, 2], original.clone());
    for _ in 0..4 {
        t.rotate_yaw(90).unwrap();
    }
    assert_eq!(t.size, [3, 2, 2]);
    assert_eq!(t.blocks, original);
}

#[test]
fn rotate_negative_quarter_is_three_quarters() {
    let mut a = strip(&["a"], [2, 1, 3], vec![0, 1, 2, 3, 4, 5]);
    let mut b = strip(&["a"], [2, 1, 3], vec![0, 1, 2, 3, 4, 5]);
    a.rotate_yaw(-90).unwrap();
    b.rotate_yaw(270).unwrap();
    assert_eq!(a.size, b.size);
    assert_eq!(a.blocks, b.blocks);
    a.rotate_yaw(90).unwrap();
    assert_eq!(a.blocks, vec![0, 1, 2, 3, 4, 5]);
}

#[test]
fn rotate_zero_and_bad_yaw() {
    let mut t = strip(&["a"], [2, 1, 3], vec![0, 1, 2, 3, 4, 5]);
    t.rotate_yaw(720).unwrap();
    assert_eq!(t.blocks, vec![0, 1, 2, 3, 4, 5]);
    let e = t.rotate_yaw(45).unwrap_err();
    assert_eq!(e, "rotate yaw must be 90, 180, or 270");
    assert_eq!(t.size, [2, 1, 3]);
}

#[test]
fn flip_mirrors_and_twice_restores() {
    let mut t = strip(&["a"], [2, 1, 3], vec![0, 1, 2, 3, 4, 5]);
    t.flip('X').unwrap();
    assert_eq!(t.blocks, vec![1, 0, 3, 2, 5, 4]);
    t.flip('x').unwrap();
    assert_eq!(t.blocks, vec![0, 1, 2, 3, 4, 5]);
    t.flip('z').unwrap();
    assert_eq!(t.blocks, vec![4, 5, 2, 3, 0, 1]);
}

#[test]
fn flip_bad_axis() {
    let mut t = strip(&["a"], [2, 1, 3], vec![0, 1, 2, 3, 4, 5]);
    assert_eq!(t.flip('w').unwrap_err(), "flip axis must be x, y, or z");
    let mut empty = strip(&["a"], [0, 4, 4], vec![]);
    assert!(empty.flip('w').is_ok());
}

#[test]
fn brief_lines_of_template() {
    let t = strip(&["a", "b"], [2, 1, 3], vec![0, 1, 0, 1, 0, 1]);
    assert_eq!(
        t.brief_lines(2),
        vec!["template=t", "size=2x1x3", "palette_n=2", "entities=2"]
    );
}

#[test]
fn paste_cells_in_scan_order() {
    let t = strip(
        &["minecraft:stone", "oak_stairs[facing=east]"],
        [2, 1, 1],
        vec![0, 1],
    );
    let cells = t.paste_cells(10, 64, -5).unwrap();
    assert_eq!(cells.len(), 2);
    assert_eq!(cells[0].0, (10, 64, -5));
    assert_eq!(cells[0].1.to_compact(), "minecraft:stone");
    assert_eq!(cells[1].0, (11, 64, -5));
    assert_eq!(cells[1].1.to_compact(), "oak_stairs[facing=east]");
}

#[test]
fn paste_cells_errors() {
    let bad_id = strip(&["minecraft:stone"], [2, 1, 1], vec![0, 5]);
    assert_eq!(bad_id.paste_cells(0, 0, 0).unwrap_err(), "bad palette id 5");
    let short = strip(&["minecraft:stone"], [2, 1, 1], vec![0]);
    assert_eq!(short.paste_cells(0, 0, 0).unwrap_err(), "template blocks truncated");
}

#[test]
fn grid_columns_positions_and_label() {
    let p = grid_columns_plan(4, 1, 2, 0, 0, 0, 2, 2);
    assert_eq!(
        p.positions,
        vec![
            (0, 0, 0),
            (0, 1, 0),
            (0, 0, 2),
            (0, 1, 2),
            (2, 0, 0),
            (2, 1, 0),
            (2, 0, 2),
            (2, 1, 2),
            (4, 0, 0),
            (4, 1, 0),
            (4, 0, 2),
            (4, 1, 2),
        ]
    );
    assert_eq!(p.label, "grid (0,0,0)..(4,1,2) spacing=2,2");
    let q = grid_columns_plan(0, 0, 0, 1, 0, 0, 0, -3);
    assert_eq!(q.positions, vec![(0, 0, 0), (1, 0, 0)]);
    assert_eq!(q.label, "grid (0,0,0)..(1,0,0) spacing=1,1");
}

#[test]
fn roof_rows_split_rows_and_stairs() {
    let stairs = BlockState::parse("oak_stairs").unwrap();
    let p = roof_rows_plan(0, 0, 0, 3, 0, 0, 'X', 2, Some(stairs), "n", "TOP").unwrap();
    assert_eq!(p.block_positions, vec![(0, 0, 0), (2, 0, 0)]);
    assert_eq!(p.stair_positions, vec![(1, 0, 0), (3, 0, 0)]);
    assert_eq!(
        p.stair_state.unwrap().to_compact(),
        "oak_stairs[facing=north,half=top,shape=straight]"
    );
    assert_eq!(p.label, "roof-rows (0,0,0)..(3,0,0) axis=x period=2");
    let q = roof_rows_plan(0, 0, 0, 0, 0, 2, 'z', 0, None, "e", "bottom").unwrap();
    assert_eq!(q.block_positions, vec![(0, 0, 0), (0, 0, 1), (0, 0, 2)]);
    assert!(q.stair_positions.is_empty());
    assert_eq!(q.period, 1);
}

#[test]
fn roof_rows_errors() {
    let e = roof_rows_plan(0, 0, 0, 1, 1, 1, 'y', 2, None, "n", "top").unwrap_err();
    assert_eq!(e, "roof-rows --axis must be x or z");
    let e = roof_rows_plan(0, 0, 0, 1, 1, 1, 'x', 2, None, "up", "top").unwrap_err();
    assert_eq!(e, "bad stairs facing `up` (north|south|east|west)");
    let e = roof_rows_plan(0, 0, 0, 1, 1, 1, 'x', 2, None, "n", "mid").unwrap_err();
    assert_eq!(e, "bad stairs half `mid` (bottom|top)");
}

#[test]
fn stairs_fill_every_cell() {
    let block = BlockState::parse("minecraft:stone_stairs").unwrap();
    let p = stairs_fill_plan(1, 0, 0, 0, 1, 0, block, "w", "bottom", "outer-left").unwrap();
    assert_eq!(p.positions, vec![(0, 0, 0), (1, 0, 0), (0, 1, 0), (1, 1, 0)]);
    assert_eq!(
        p.state.to_compact(),
        "minecraft:stone_stairs[facing=west,half=bottom,shape=outer_left]"
    );
    assert_eq!(
        p.label,
        "stairs (0,0,0)..(1,1,0) facing=west half=bottom shape=outer_left"
    );
    let block = BlockState::parse("minecraft:stone_stairs").unwrap();
    let e = stairs_fill_plan(0, 0, 0, 0, 0, 0, block, "w", "bottom", "round").unwrap_err();
    assert_eq!(
        e,
        "bad stairs shape `round` (straight|inner_left|inner_right|outer_left|outer_right)"
    );
}

#[test]
fn schem_payload_becomes_dense_template() {
    let palette = vec![("minecraft:stone".to_string(), 0usize), ("minecraft:dirt".to_string(), 2usize)];
    let data = vec![0u8, 1, 2, 0];
    let t = schem_template("imp", 2, 1, 2, &palette, &data).unwrap();
    assert_eq!(t.name, "imp");
    assert_eq!(t.size, [2, 1, 2]);
    assert_eq!(t.palette, vec!["minecraft:air", "minecraft:stone", "minecraft:dirt"]);
    assert_eq!(t.blocks, vec![1, 0, 2, 1]);
}

#[test]
fn schem_payload_errors() {
    let palette = vec![("minecraft:stone".to_string(), 0usize)];
    assert_eq!(
        schem_template("x", 2, 1, 2, &palette, &[0, 0, 0]).unwrap_err(),
        "schem BlockData length 3 != volume 4"
    );
    assert_eq!(
        schem_template("x", 1, 1, 1, &palette, &[0x80]).unwrap_err(),
        "truncated varint in schem BlockData"
    );
    assert!(!varints_decodable(&[0xff, 0xff, 0xff, 0xff, 0xff, 0x01], 1));
    assert!(varints_decodable(&[0x01], 1));
    assert!(varints_decodable(&[0xff, 0xff, 0xff, 0xff, 0x0f], 1));
}

#[test]
fn block_names_are_normalised() {
    assert_eq!(normalize_block_name("stone"), "stone");
    assert_eq!(normalize_block_name(" minecraft:oak_log[axis=y] "), "minecraft:oak_log[axis=y]");
    assert_eq!(normalize_block_name("oak_log[axis=y"), "minecraft:oak_log[axis=y");
    assert_eq!(normalize_block_name("mod:thing[x"), "mod:thing[x");
}

#[test]
fn schem_export_then_import_keeps_blocks() {
    let palette = vec!["minecraft:stone".to_string(), "minecraft:oak_log[axis=y]".to_string()];
    let blocks = vec![1u16, 0, 0, 1, 1, 1];
    let map = schem_palette_map(&palette);
    assert_eq!(map, vec![(palette[0].clone(), 0), (palette[1].clone(), 1)]);
    let data = schem_block_data(&blocks);
    assert_eq!(data, vec![1, 0, 0, 1, 1, 1]);
    let t = schem_template("rt", 3, 1, 2, &map, &data).unwrap();
    for (i, b) in blocks.iter().enumerate() {
        assert_eq!(t.palette[t.blocks[i] as usize], palette[*b as usize]);
    }
    assert_eq!(schem_block_data(&[300]), vec![0xac, 0x02]);
}

fn sblock(state: Option<i64>, pos: Option<Vec<i64>>) -> StructureBlock {
    StructureBlock { state, pos }
}

#[test]
fn structure_blocks_become_dense_template() {
    let palette = vec!["minecraft:stone".to_string(), "minecraft:dirt".to_string()];
    let entries = vec![
        sblock(Some(1), Some(vec![1, 0, 0])),
        sblock(Some(0), Some(vec![0, 0, 1])),
        sblock(Some(1), Some(vec![5, 0, 0])),
        sblock(Some(0), Some(vec![1, 0, 1])),
    ];
    let t = structure_template("s", [2, 1, 2], &palette, &entries).unwrap();
    assert_eq!(t.size, [2, 1, 2]);
    assert_eq!(t.palette, vec!["minecraft:air", "minecraft:dirt", "minecraft:stone"]);
    assert_eq!(t.blocks, vec![0, 1, 2, 2]);
}

#[test]
fn structure_import_errors() {
    let palette = vec!["minecraft:stone".to_string()];
    let ok = |s: [i32; 3], e: Vec<StructureBlock>| structure_template("s", s, &palette, &e).unwrap_err();
    assert_eq!(ok([0, 1, 1], vec![]), "structure size must be positive");
    assert_eq!(ok([65, 64, 64], vec![]), "structure too large (max 64^3 dense volume)");
    assert_eq!(ok([1, 1, 1], vec![sblock(None, Some(vec![0, 0, 0]))]), "block missing state");
    assert_eq!(ok([1, 1, 1], vec![sblock(Some(0), None)]), "block missing pos");
    assert_eq!(ok([1, 1, 1], vec![sblock(Some(0), Some(vec![0, 0]))]), "block pos must be [x,y,z]");
    assert_eq!(ok([1, 1, 1], vec![sblock(Some(7), Some(vec![0, 0, 0]))]), "palette index 7 out of range");
}

#[test]
fn structure_export_lists_non_air_cells() {
    let t = strip(&["minecraft:air", "minecraft:stone", "bad[x"], [2, 1, 1], vec![0, 1]);
    assert_eq!(structure_block_list(&t).unwrap(), vec![(1, (1, 0, 0))]);
    let t = strip(&["minecraft:air", "minecraft:stone", "bad[x"], [2, 1, 1], vec![2, 0]);
    assert_eq!(structure_block_list(&t).unwrap(), vec![(2, (0, 0, 0))]);
    let t = strip(&["minecraft:air"], [2, 1, 1], vec![5, 0]);
    assert_eq!(structure_block_list(&t).unwrap_err(), "bad palette id");
    let t = strip(&["minecraft:air"], [2, 1, 1], vec![0]);
    assert_eq!(structure_block_list(&t).unwrap_err(), "template blocks truncated");
}

#[test]
fn plan_changes_where_blocks_differ_and_mask_accepts() {
    let air = BlockState::parse("minecraft:air").unwrap();
    let stone = BlockState::parse("minecraft:stone").unwrap();
    let dirt = BlockState::parse("minecraft:dirt").unwrap();
    let positions = vec![(0, 0, 0), (1, 0, 0), (2, 0, 0)];
    let befores = vec![air.clone(), stone.clone(), dirt.clone()];
    let pattern = Pattern::single(stone.clone());
    let all = plan_pattern_changes(&positions, &befores, &pattern, None);
    let got: Vec<(i32, String, String)> =
        all.iter().map(|c| (c.x, c.before.to_compact(), c.after.to_compact())).collect();
    assert_eq!(
        got,
        vec![
            (0, "minecraft:air".to_string(), "minecraft:stone".to_string()),
            (2, "minecraft:dirt".to_string(), "minecraft:stone".to_string()),
        ]
    );
    let mask = Mask::parse("air").unwrap();
    let masked = plan_pattern_changes(&positions, &befores, &pattern, Some(&mask));
    assert_eq!(masked.len(), 1);
    assert_eq!(masked[0].x, 0);
}

#[test]
fn edit_labels() {
    let b = Aabb::from_corners(1, 1, 1, 0, 0, 0);
    let stone = BlockState::parse("minecraft:stone").unwrap();
    let pattern = Pattern::single(stone.clone());
    assert_eq!(fill_label(b, &pattern, None), "fill (0,0,0)..(1,1,1) -> minecraft:stone");
    let mask = Mask::parse("air").unwrap();
    assert_eq!(
        fill_label(b, &pattern, Some(&mask)),
        "fill (0,0,0)..(1,1,1) -> minecraft:stone mask=air"
    );
    assert_eq!(
        replace_label(b, &mask, &pattern),
        "replace air -> minecraft:stone in (0,0,0)..(1,1,1)"
    );
    assert_eq!(block_label("walls", &stone), "walls -> minecraft:stone");
    assert_eq!(replace_mask(stone).describe(), "minecraft:stone");
}

#[test]
fn capture_blocks_builds_palette() {
    let s = |t: &str| BlockState::parse(t).unwrap();
    let states = vec![
        s("minecraft:air"),
        s("minecraft:stone"),
        s("minecraft:cave_air"),
        s("minecraft:stone"),
        s("minecraft:dirt"),
        s("minecraft:stone[a=b]"),
    ];
    let t = capture_blocks("clip", 2, 0, 1, 0, 0, 0, &states).unwrap();
    assert_eq!(t.size, [3, 1, 2]);
    assert_eq!(
        t.palette,
        vec!["minecraft:air", "minecraft:stone", "minecraft:dirt", "minecraft:stone[a=b]"]
    );
    assert_eq!(t.blocks, vec![0, 1, 0, 1, 2, 3]);
    let big = capture_blocks("big", 0, 0, 0, 64, 63, 63, &Vec::new()).unwrap_err();
    assert_eq!(big, "template too large (max 64^3)");
}

#[test]
fn slice_lines_show_short_labels() {
    let s = |t: &str| BlockState::parse(t).unwrap();
    let states = vec![
        s("minecraft:stone"),
        s("minecraft:oak_log[axis=y]"),
        s("minecraft:air"),
        s("dirt"),
    ];
    assert_eq!(
        slice_lines(64, 1, 1, 0, 0, &states).unwrap(),
        vec!["slice y=64 (0,0)..(1,1)", "stone oak_log*", "air dirt"]
    );
    assert_eq!(
        slice_lines(0, 0, 0, 65, 0, &Vec::new()).unwrap_err(),
        "slice too large (max 65x65)"
    );
}

#[test]
fn schem_histogram_ranks_blocks() {
    let palette = vec![
        ("minecraft:stone".to_string(), 0usize),
        ("minecraft:air".to_string(), 1),
        ("minecraft:dirt".to_string(), 3),
    ];
    let data = vec![0u8, 0, 0, 1, 3, 2];
    assert_eq!(
        block_histogram(&palette, &data, 6, 2).unwrap(),
        vec![("minecraft:stone".to_string(), 3), ("minecraft:air".to_string(), 2)]
    );
    assert_eq!(
        block_histogram(&palette, &data, 6, 10).unwrap(),
        vec![
            ("minecraft:stone".to_string(), 3),
            ("minecraft:air".to_string(), 2),
            ("minecraft:dirt".to_string(), 1)
        ]
    );
    assert!(block_histogram(&palette, &data, 0, 10).unwrap().is_empty());
    assert_eq!(
        block_histogram(&palette, &[0x80u8], 3, 10).unwrap_err(),
        "truncated varint in schem BlockData"
    );
}

fn bc(x: i32, y: i32, z: i32, before: &str, after: &str) -> mcaedit_core::action::BlockChange {
    mcaedit_core::action::BlockChange {
        x,
        y,
        z,
        before: BlockState::parse(before).unwrap(),
        after: BlockState::parse(after).unwrap(),
    }
}

#[test]
fn move_merge_later_writes_win() {
    let changes = vec![
        bc(1, 0, 0, "minecraft:stone", "minecraft:air"),
        bc(0, 5, 0, "minecraft:stone", "minecraft:air"),
        bc(0, 0, 0, "minecraft:dirt", "minecraft:air"),
        bc(1, 0, 0, "minecraft:stone", "minecraft:oak_planks"),
        bc(0, 0, 2, "minecraft:air", "minecraft:glass"),
    ];
    let merged = merge_by_position(&changes);
    let got: Vec<(i32, i32, i32, String)> = merged
        .iter()
        .map(|c| (c.x, c.y, c.z, c.after.to_compact()))
        .collect();
    assert_eq!(
        got,
        vec![
            (0, 0, 0, "minecraft:air".to_string()),
            (0, 0, 2, "minecraft:glass".to_string()),
            (0, 5, 0, "minecraft:air".to_string()),
            (1, 0, 0, "minecraft:oak_planks".to_string()),
        ]
    );
    assert!(merge_by_position(&vec![]).is_empty());
}

#[test]
fn stack_origin_steps() {
    assert_eq!(
        stack_origins(5, 0, 3, 1, 2, 0, 3, 10, 0, -1).unwrap(),
        vec![(11, 0, -1), (21, 0, -2), (31, 0, -3)]
    );
    assert_eq!(stack_origins(0, 0, 0, 0, 0, 0, 0, 1, 1, 1).unwrap_err(), "stack count must be >= 1");
}

#[test]
fn paste_keeps_only_changing_cells() {

    assert!(paste_fits([2, 2, 2], (0, 0, 0)));
    assert!(paste_fits([1, 1, 1], (i32::MAX, 0, 0)));
    assert!(!paste_fits([2, 1, 1], (i32::MAX, 0, 0)));
    assert!(!paste_fits([0x8000_0000, 1, 1], (i32::MIN, 0, 0)));
    let stone = BlockState::parse("minecraft:stone").unwrap();
    let dirt = BlockState::parse("minecraft:dirt").unwrap();
    let cells = vec![((0, 0, 0), stone.clone()), ((1, 0, 0), dirt.clone())];
    let befores = vec![stone.clone(), stone.clone()];
    let ch = paste_changes(&cells, &befores);
    assert_eq!(ch.len(), 1);
    assert_eq!((ch[0].x, ch[0].before.to_compact(), ch[0].after.to_compact()),
        (1, "minecraft:stone".to_string(), "minecraft:dirt".to_string()));
}
