use mcaedit_core::blockstate::BlockState;
use mcaedit_core::palette::SectionBlocks;
use mcaedit_core::style::{count_non_air_sections, detect_spacing, style_hints_from_template, summary_chunk};
use mcaedit_core::template::Template;

fn tpl(palette: &[&str], size: [u32; 3], blocks: Vec<u16>) -> Template {
    Template {
        name: "style".to_string(),
        size,
        palette: palette.iter().map(|s| s.to_string()).collect(),
        blocks,
    }
}

#[test]
fn spacing_of_pillar_grid() {
    assert_eq!(
        detect_spacing(&[(0, 0), (4, 0), (8, 0), (0, 6), (4, 6)]),
        Some((4, 6))
    );
    assert_eq!(detect_spacing(&[(0, 0), (1, 0), (2, 0), (3, 0)]), None);
    assert_eq!(detect_spacing(&[(0, 0), (1, 1), (2, 2), (3, 3)]), None);
    assert_eq!(detect_spacing(&[(0, 0), (4, 4), (8, 8)]), None);
    assert_eq!(detect_spacing(&[(8, 2), (0, 2), (4, 2), (4, 2)]), None);
}

#[test]
fn style_hints_of_small_house() {
    let t = tpl(
        &[
            "minecraft:air",
            "minecraft:oak_log[axis=y]",
            "minecraft:stone_bricks",
            "minecraft:oak_stairs[facing=east,half=bottom]",
            "minecraft:oak_slab[type=top]",
        ],
        [4, 3, 1],
        vec![1, 0, 1, 2, 1, 3, 1, 0, 4, 4, 4, 4],
    );
    let h = style_hints_from_template(&t);
    assert_eq!(h.volume, 12);
    assert_eq!(h.solid_count, 10);
    assert_eq!(h.pillar_spacing_hint, None);
    assert_eq!(
        h.detail_lines(),
        vec![
            "materials_top=minecraft:oak_log[axis=y]=4,minecraft:oak_slab[type=top]=4,minecraft:oak_stairs[facing=east,half=bottom]=1,minecraft:stone_bricks=1",
            "families=log=4,masonry=1,slab=4,stairs=1",
            "stairs_facing=east=1",
            "stairs_half=bottom=1",
            "slab_type=top=4",
            "layer y=0 solid=3 air=1 dominant=minecraft:oak_log[axis=y]=2",
            "layer y=1 solid=3 air=1 dominant=minecraft:oak_log[axis=y]=2",
            "layer y=2 solid=4 air=0 dominant=minecraft:oak_slab[type=top]=4",
            "suggest=edit roof-rows --stairs … --stairs-facing east (stairs+slabs)",
            "suggest=edit walls / fill / outline for shell; hollow for interiors",
            "suggest=inspect layers: upper third denser — treat as roof/cornice band",
            "suggest=schem import for exact paste; or rebuild with fill/grid/roof-rows/stairs",
        ]
    );
}

#[test]
fn style_hints_find_pillar_rhythm() {
    let mut blocks = vec![0u16; 16];
    for (x, z) in [(0usize, 0usize), (3, 0), (0, 3), (3, 3)] {
        blocks[z * 4 + x] = 1;
    }
    let t = tpl(&["minecraft:air", "minecraft:birch_log"], [4, 1, 4], blocks);
    let h = style_hints_from_template(&t);
    assert_eq!(h.pillar_spacing_hint, Some((3, 3)));
    assert_eq!(
        h.suggested_ops[0],
        "edit grid/colonnade --spacing-x 3 --spacing-z 3 (pillar rhythm)"
    );
    assert_eq!(h.families, vec![("log".to_string(), 4)]);
}

#[test]
fn style_hints_treat_missing_entries_as_air() {
    let t = tpl(&["not a [block"], [2, 1, 1], vec![7]);
    let h = style_hints_from_template(&t);
    assert_eq!(h.solid_count, 0);
    assert!(h.materials_top.is_empty());
    assert_eq!(h.layers[0].air, 2);
    assert_eq!(h.layers[0].dominant, None);
    assert_eq!(
        h.suggested_ops,
        vec!["schem import for exact paste; or rebuild with fill/grid/roof-rows/stairs"]
    );
}

#[test]
fn section_non_air_counts_by_state() {
    let mut s = SectionBlocks::air();
    let stone = BlockState::parse("minecraft:stone").unwrap();
    s.set(0, 0, 0, stone.clone());
    s.set(1, 0, 0, stone);
    s.set(2, 5, 9, BlockState::parse("minecraft:oak_planks").unwrap());
    let (total, counts) = s.non_air_counts();
    assert_eq!(total, 3);
    assert_eq!(
        counts,
        vec![
            ("minecraft:oak_planks".to_string(), 1),
            ("minecraft:stone".to_string(), 2)
        ]
    );
}

fn count_of(t: &[(String, usize)], k: &str) -> Option<usize> {
    t.iter().find(|(n, _)| n == k).map(|(_, c)| *c)
}

#[test]
fn style_hints_detects_stairs_and_spacing() {
    // 5x3x5: oak_log pillars on 4-spacing corners + oak_stairs/slab roof band
    let palette = vec![
        "minecraft:air".to_string(),
        "minecraft:oak_log[axis=y]".to_string(),
        "minecraft:oak_stairs[facing=north,half=bottom,shape=straight]".to_string(),
        "minecraft:oak_slab[type=bottom]".to_string(),
    ];
    let dx = 5u32;
    let dy = 3u32;
    let dz = 5u32;
    let volume = (dx * dy * dz) as usize;
    let mut blocks = vec![0u16; volume];
    let idx = |x: u32, y: u32, z: u32| ((y * dz + z) * dx + x) as usize;
    for &(x, z) in &[(0u32, 0u32), (0, 4), (4, 0), (4, 4)] {
        for y in 0..2 {
            blocks[idx(x, y, z)] = 1;
        }
    }
    for x in 0..dx {
        for z in 0..dz {
            blocks[idx(x, 2, z)] = if (x + z) % 2 == 0 { 2 } else { 3 };
        }
    }
    let tpl = Template { name: "style-test".into(), size: [dx, dy, dz], palette, blocks };
    let hints = style_hints_from_template(&tpl);
    assert!(count_of(&hints.families, "stairs").unwrap_or(0) > 0);
    assert!(count_of(&hints.families, "slab").unwrap_or(0) > 0);
    assert_eq!(count_of(&hints.stairs_facing, "north"), Some(13));
    assert_eq!(hints.pillar_spacing_hint, Some((4, 4)));
    assert!(hints.suggested_ops.iter().any(|s| {
        s.contains("roof-rows") || s.contains("colonnade") || s.contains("grid")
    }));
}

fn section_with(blocks: &[(u8, u8, u8, &str)]) -> SectionBlocks {
    let mut s = SectionBlocks::air();
    for (x, y, z, b) in blocks {
        s.set(*x, *y, *z, BlockState::parse(b).unwrap());
    }
    s
}

#[test]
fn chunk_counts_merge_sections() {
    let a = section_with(&[(0, 0, 0, "minecraft:stone"), (1, 0, 0, "minecraft:dirt")]);
    let b = section_with(&[(3, 3, 3, "minecraft:stone"), (4, 4, 4, "minecraft:cave_air")]);
    let (total, counts) = count_non_air_sections(&vec![a, b]);
    assert_eq!(total, 3);
    assert_eq!(
        counts,
        vec![("minecraft:dirt".to_string(), 1), ("minecraft:stone".to_string(), 2)]
    );
}

#[test]
fn chunk_summary_lists_top_states() {
    let a = section_with(&[
        (0, 0, 0, "minecraft:stone"),
        (1, 0, 0, "minecraft:stone"),
        (2, 0, 0, "minecraft:dirt"),
        (3, 0, 0, "minecraft:oak_log[axis=y]"),
    ]);
    let b = section_with(&[(0, 1, 0, "minecraft:dirt"), (0, 2, 0, "minecraft:stone")]);
    assert_eq!(
        summary_chunk(-2, 7, &vec![a, b]),
        "chunk=-2,7 non_air=6 top=[minecraft:stone=3 minecraft:dirt=2 minecraft:oak_log[axis=y]=1]"
    );
}

#[test]
fn chunk_summary_keeps_eight_states() {
    let names = ["a", "b", "c", "d", "e", "f", "g", "h", "i", "j"];
    let cells: Vec<(u8, u8, u8, String)> = names
        .iter()
        .enumerate()
        .map(|(i, n)| (i as u8, 0, 0, format!("minecraft:{n}")))
        .collect();
    let refs: Vec<(u8, u8, u8, &str)> =
        cells.iter().map(|(x, y, z, n)| (*x, *y, *z, n.as_str())).collect();
    let s = section_with(&refs);
    assert_eq!(
        summary_chunk(0, 0, &vec![s]),
        "chunk=0,0 non_air=10 top=[minecraft:a=1 minecraft:b=1 minecraft:c=1 minecraft:d=1 minecraft:e=1 minecraft:f=1 minecraft:g=1 minecraft:h=1]"
    );
    assert_eq!(summary_chunk(3, 4, &vec![]), "chunk=3,4 non_air=0 top=[]");
}
