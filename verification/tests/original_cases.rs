use mca::{Compression, RegionWriter};
use mcaedit_core::anvil::{linear_to_mca_bytes, mca_to_linear_v1};
use mcaedit_core::assets::{face_texture_candidates, CubeFace};
use mcaedit_core::bitstorage::BitStorage;
use mcaedit_core::blockstate::BlockState;
use mcaedit_core::build_ops::{grid_axis, normalize_facing, normalize_half, normalize_shape};
use mcaedit_core::linear::{
    is_linear_file, read_linear_v1, read_linear_v2, write_linear_v1, write_linear_v2,
    LinearRegion, LinearVersion,
};
use mcaedit_core::mask::Mask;
use mcaedit_core::mc_version::ResolvedVersion;
use mcaedit_core::models::variant_key_matches;
use mcaedit_core::ops::{aabb_positions, Aabb};
use mcaedit_core::palette::SectionBlocks;
use mcaedit_core::pattern::Pattern;
use mcaedit_core::preview::PreviewOptions;
use mcaedit_core::view::hash_color;
use std::collections::HashSet;
use std::path::PathBuf;

#[test]
fn preview_options_carry_watch_interval() {
    let opts = PreviewOptions {
        session_id: "t".into(),
        cwd: PathBuf::from("."),
        from: None,
        to: None,
        watch_ms: 400,
        width: 960,
        height: 540,
        minecraft: None,
        assets_jar: None,
        no_textures: false,
        max_cells: None,
    };
    assert_eq!(opts.watch_ms, 400);
    assert!(opts.from.is_none());
}

#[test]
fn grass_block_face_candidates() {
    let top = face_texture_candidates("grass_block", CubeFace::PosY);
    assert_eq!(top[0], "grass_block_top");
    let side = face_texture_candidates("grass_block", CubeFace::PosX);
    assert_eq!(side[0], "grass_block_side");
    let bot = face_texture_candidates("grass_block", CubeFace::NegY);
    assert_eq!(bot[0], "dirt");
}

#[test]
fn roundtrip_4bit() {
    let values: Vec<u32> = (0..4096).map(|i| (i % 16) as u32).collect();
    let packed = BitStorage::pack_values(4, &values);
    assert_eq!(packed.raw().len(), 256);
    assert_eq!(packed.unpack(), values);
}

#[test]
fn facing_aliases() {
    assert_eq!(normalize_facing("N").unwrap(), "north");
    assert_eq!(normalize_half("top").unwrap(), "top");
    assert_eq!(normalize_shape("straight").unwrap(), "straight");
}

#[test]
fn grid_axis_steps() {
    assert_eq!(grid_axis(0, 10, 4), vec![0, 4, 8]);
}

#[test]
fn linear_v1_roundtrip_empty_and_one_chunk() {
    let mut region = LinearRegion::empty(1, -2);
    region.set(3, 5, Some(b"\x0a\x00hello-chunk-nbt\x00".to_vec()), 42);
    let bytes = write_linear_v1(&region, 3).unwrap();
    assert!(is_linear_file(&bytes));
    let back = read_linear_v1(&bytes).unwrap();
    assert_eq!(back.present_count(), 1);
    assert_eq!(
        back.get(3, 5).unwrap(),
        b"\x0a\x00hello-chunk-nbt\x00".as_slice()
    );
    assert_eq!(back.timestamps[LinearRegion::chunk_index(3, 5)], 42);
}

#[test]
fn linear_v2_roundtrip() {
    let mut region = LinearRegion::empty(0, 0);
    region.version = LinearVersion::V2;
    region.grid_size = 2;
    region.set(0, 0, Some(vec![1, 2, 3, 4, 5]), 7);
    region.set(31, 31, Some(vec![9, 8, 7]), 8);
    let bytes = write_linear_v2(&region).unwrap();
    let back = read_linear_v2(&bytes).unwrap();
    assert_eq!(back.version, LinearVersion::V2);
    assert_eq!(back.get(0, 0).unwrap(), &[1, 2, 3, 4, 5]);
    assert_eq!(back.get(31, 31).unwrap(), &[9, 8, 7]);
    assert!(back.get(1, 0).is_none());
}

#[test]
fn air_and_not() {
    let m = Mask::parse("!air").unwrap();
    assert!(!m.matches(&BlockState::air()));
    assert!(m.matches(&BlockState::parse("minecraft:stone").unwrap()));
}

#[test]
fn or_list() {
    let m = Mask::parse("stone,dirt").unwrap();
    assert!(m.matches(&BlockState::parse("minecraft:stone").unwrap()));
    assert!(m.matches(&BlockState::parse("minecraft:dirt").unwrap()));
    assert!(!m.matches(&BlockState::parse("minecraft:glass").unwrap()));
}

#[test]
fn exclude_compose() {
    let m = Mask::with_exclude(Some(Mask::Solid), Some("bedrock")).unwrap();
    assert!(m.matches(&BlockState::parse("minecraft:stone").unwrap()));
    assert!(!m.matches(&BlockState::parse("minecraft:bedrock").unwrap()));
    assert!(!m.matches(&BlockState::air()));
}

#[test]
fn resolve_defaults_to_26_2() {
    let v = ResolvedVersion::resolve(None, None).unwrap();
    assert_eq!(v.data_version, 4903);
    assert_eq!(v.name, "26.2");
    assert!(v.modern_layout);
}

#[test]
fn resolve_old_anvil() {
    let v = ResolvedVersion::from_mc("1.18.2").unwrap();
    assert_eq!(v.data_version, 2975);
    assert!(!v.modern_layout);
}

#[test]
fn resolve_raw_int() {
    let v = ResolvedVersion::from_mc("3465").unwrap();
    assert_eq!(v.data_version, 3465);
    assert_eq!(v.name, "1.20.1");
}

#[test]
fn variant_key_subset_match() {
    let props = vec![("type".to_string(), "bottom".to_string())];
    assert!(variant_key_matches("type=bottom", &props));
    assert!(!variant_key_matches("type=top", &props));
    assert!(variant_key_matches("", &props));
}

#[test]
fn walls_exclude_interior() {
    let b = Aabb::from_corners(0, 0, 0, 2, 2, 2);
    let walls = aabb_positions(b, |x, y, z| b.on_wall(x, y, z));
    assert!(walls.contains(&(0, 1, 1)));
    assert!(!walls.iter().any(|&(x, y, z)| x == 1 && y == 1 && z == 1));
}

#[test]
fn parse_percent_and_single() {
    let p = Pattern::parse("50%stone,50%dirt").unwrap();
    assert_eq!(p.entries().len(), 2);
    assert_eq!(p.total(), 100);
    let s = Pattern::parse("minecraft:glass").unwrap();
    assert_eq!(s.entries().len(), 1);
}

#[test]
fn pick_is_deterministic() {
    let p = Pattern::parse("50%stone,50%dirt").unwrap();
    let a = p.pick_at(1, 2, 3).clone();
    let b = p.pick_at(1, 2, 3).clone();
    assert_eq!(a, b);
}

#[test]
fn hash_color_is_stable() {
    assert_eq!(hash_color("mystery_block"), hash_color("mystery_block"));
}

fn visible_faces(occ: &HashSet<(i32, i32, i32)>) -> usize {
    let dirs = [
        (1, 0, 0),
        (-1, 0, 0),
        (0, 1, 0),
        (0, -1, 0),
        (0, 0, 1),
        (0, 0, -1),
    ];
    let mut faces = 0usize;
    for &(x, y, z) in occ {
        for (dx, dy, dz) in dirs {
            if !occ.contains(&(x + dx, y + dy, z + dz)) {
                faces += 1;
            }
        }
    }
    faces
}

#[test]
fn face_cull_for_adjacent_blocks() {
    let mut occ = HashSet::new();
    occ.insert((0, 0, 0));
    occ.insert((1, 0, 0));
    assert_eq!(visible_faces(&occ), 10);
}

#[test]
fn pattern_sampling_volume_distribution() {
    let p = Pattern::parse("50%stone,50%dirt").unwrap();
    let mut stone = 0u32;
    let mut dirt = 0u32;
    for y in 0..16 {
        for z in 0..32 {
            for x in 0..32 {
                let b = p.pick_at(x, y, z).to_compact();
                if b.contains("stone") {
                    stone += 1;
                } else {
                    dirt += 1;
                }
            }
        }
    }
    let total = stone + dirt;
    assert_eq!(total, 16 * 32 * 32);
    let ratio = stone as f64 / total as f64;
    assert!(
        (0.35..0.65).contains(&ratio),
        "stone ratio out of range: {ratio}"
    );
}

#[test]
fn palette_roundtrip_mixed() {
    let mut sec = SectionBlocks::air();
    sec.set(0, 0, 0, BlockState::parse("minecraft:stone").unwrap());
    sec.set(
        1,
        0,
        0,
        BlockState::parse("minecraft:oak_log[axis=y]").unwrap(),
    );
    let (palette, data) = sec.to_palette_states().unwrap();
    assert!(palette.len() >= 2);
    let back = SectionBlocks::from_palette_states(palette, data.as_deref()).unwrap();
    assert_eq!(back.get(0, 0, 0).to_compact(), "minecraft:stone");
    assert_eq!(
        back.get(1, 0, 0).to_compact(),
        "minecraft:oak_log[axis=y]"
    );
}

#[test]
fn mca_linear_mca_roundtrip() {
    let mut w = RegionWriter::new();
    let payload = b"\x0a\x00\x00".to_vec();
    w.set_chunk(1, 2, payload.clone(), Compression::default())
        .unwrap();
    let mut mca = Vec::new();
    w.write(&mut mca).unwrap();

    let linear = mca_to_linear_v1(&mca, 0, 0).unwrap();
    assert_eq!(linear.present_count(), 1);
    let mca2 = linear_to_mca_bytes(&linear).unwrap();
    let back = mca_to_linear_v1(&mca2, 0, 0).unwrap();
    assert_eq!(back.get(1, 2).unwrap(), payload.as_slice());
}

#[test]
fn mask_not_binds_looser_than_and() {
    let stone = BlockState::new("minecraft:stone");
    let dirt = BlockState::new("minecraft:dirt");
    let glass = BlockState::new("minecraft:glass");
    let m = Mask::parse("!stone&dirt").unwrap();
    assert!(m.matches(&glass));
    assert!(m.matches(&stone));
    assert!(m.matches(&dirt));
    let m2 = Mask::parse("dirt&!stone").unwrap();
    assert!(m2.matches(&dirt));
    assert!(!m2.matches(&stone));
    let m3 = Mask::parse("!stone|dirt").unwrap();
    assert!(m3.matches(&dirt));
    assert!(m3.matches(&glass));
    assert!(!m3.matches(&stone));
}

#[test]
fn pattern_checked_parse_refuses_overflowing_weights() {
    let p = Pattern::parse_checked("3*stone,1*dirt").unwrap();
    assert_eq!(p.total(), 4);
    assert_eq!(p.entries().len(), 2);
    assert_eq!(
        Pattern::parse_checked("4294967295*stone,1*dirt").unwrap_err(),
        "pattern total weight does not fit in u32"
    );
    assert_eq!(Pattern::parse_checked("").unwrap_err(), "empty pattern");
    assert_eq!(Pattern::parse_checked("glass").unwrap().total(), 1);
}

#[test]
fn mask_parsing_composes_over_atoms() {
    let blocks = ["minecraft:stone", "minecraft:dirt", "minecraft:glass", "minecraft:air", "minecraft:cave_air"];
    let m = |s: &str, b: &BlockState| Mask::parse(s).unwrap().matches(b);
    for name in blocks {
        let x = BlockState::new(name);
        assert!(m("", &x));
        assert_eq!(m("air", &x), x.is_air_like());
        assert_eq!(m("#solid", &x), !x.is_air_like());
        assert_eq!(m("#existing", &x), !x.is_air_like());
        assert_eq!(m("stone", &x), m("minecraft:stone", &x));
        for (a, b) in [("stone", "dirt"), ("air", "glass"), ("#solid", "stone")] {
            assert_eq!(m(&format!("!{a}"), &x), !m(a, &x));
            assert_eq!(m(&format!("{a}|{b}"), &x), m(a, &x) || m(b, &x));
            assert_eq!(m(&format!("{a},{b}"), &x), m(a, &x) || m(b, &x));
            assert_eq!(m(&format!("{a}&{b}"), &x), m(a, &x) && m(b, &x));
        }
    }
}

#[test]
fn canonical_block_state_text_reads_back() {
    for c in [
        "minecraft:stone",
        "minecraft:oak_stairs[facing=north,half=bottom]",
        "minecraft:wheat[age=7]",
        "foo:bar[a=1,b=2,c=3]",
    ] {
        assert_eq!(BlockState::parse(c).unwrap().to_compact(), c);
    }
    assert_eq!(
        BlockState::parse("minecraft:oak_stairs[half=bottom,facing=north]").unwrap().to_compact(),
        "minecraft:oak_stairs[facing=north,half=bottom]"
    );
}
