use mcaedit_core::anvil::{chunk_record_ok, linear_to_mca_bytes, mca_records_ok, mca_to_linear_v1};
use mcaedit_core::assets::{block_stem, face_texture_candidates, needs_biome_tint, CubeFace};
use mcaedit_core::blockstate::BlockState;
use mcaedit_core::build_ops::{grid_axis, normalize_facing, normalize_half, normalize_shape, with_props};
use mcaedit_core::error::Error;
use mcaedit_core::history::{action_file_name, max_action_id, History};
use mcaedit_core::level::{GeneratorKind, LevelInfo, RegionFormat as LevelRegionFormat};
use mcaedit_core::linear::{
    decompress_zstd_ruzstd_or_zstd, detect_linear_version, global_chunk_index, linear_v1_payload,
    parse_linear_v1_payload, read_linear, read_linear_v1, read_linear_v2, write_linear,
    write_linear_v1, write_linear_v2, LinearRegion, LinearVersion,
};
use mcaedit_core::mc_version::{supported_mc_summary, ResolvedVersion};
use mcaedit_core::models::{
    map_cull_x270, map_cull_x90, map_cull_y180, normalize_model_name, texture_jar_path, FaceDir,
};
use mcaedit_core::region::{
    linear_file_name, linear_marker_text, linear_marker_version, linear_source_marker_name,
    linear_present_chunks, local_chunk, parse_region_name, region_coords, region_file_coords,
    region_file_name, RegionFormat,
};
use mcaedit_core::schem::{block_family, gcd_gaps, gcd_u32, read_varints, write_varint, SchemInfo};
use mcaedit_core::session::{list_lease_conflicts, RegionLease, Session, SessionMeta};
use mcaedit_core::structure::{default_structure_data_version, StructureInfo};
use mcaedit_core::tick::{age_max, fastrand_u32, force_age_steps, is_random_tickable, prop_u8, FASTRAND_SEED};
use mcaedit_core::view::hash_color;
use mcaedit_core::structure::{chunk_structure_summary, ChunkStructures};
use mcaedit_core::models::{clause_matches, match_variant, resolve_texture, when_matches, Condition, WhenClause};
use mcaedit_core::entity::{entity_uuid, uuid_of, UuidField};

// ---------------------------------------------------------------- linear

fn sample_region(version: LinearVersion) -> LinearRegion {
    let mut r = LinearRegion::empty(3, -4);
    r.version = version;
    r.set(0, 0, Some(vec![10, 20, 30]), 5);
    r.set(7, 2, Some(b"chunk-seven".to_vec()), 99);
    r.set(31, 31, Some(vec![1]), 12);
    r
}

#[test]
fn detect_rejects_short_and_foreign_bytes() {
    assert_eq!(detect_linear_version(&[1, 2, 3]).unwrap_err(), "linear: file too short");
    assert_eq!(detect_linear_version(&[0u8; 9]).unwrap_err(), "linear: bad signature");
    let mut b = 0xc3ff_1318_3cca_9d9au64.to_be_bytes().to_vec();
    b.push(7);
    assert_eq!(detect_linear_version(&b).unwrap_err(), "linear: unsupported version 7");
    b[8] = 2;
    assert_eq!(detect_linear_version(&b).unwrap(), LinearVersion::V2);
}

#[test]
fn v1_written_file_reads_back_exactly() {
    let region = sample_region(LinearVersion::V1);
    let bytes = write_linear_v1(&region, 6).unwrap();
    assert_eq!(&bytes[0..8], &0xc3ff_1318_3cca_9d9au64.to_be_bytes());
    assert_eq!(bytes[8], 1);
    // newest timestamp of present chunks, chunk count
    assert_eq!(u64::from_be_bytes(bytes[9..17].try_into().unwrap()), 99);
    assert_eq!(bytes[17], 6);
    assert_eq!(i16::from_be_bytes(bytes[18..20].try_into().unwrap()), 3);
    let back = read_linear_v1(&bytes).unwrap();
    assert_eq!(back.chunks, region.chunks);
    assert_eq!(back.timestamps, region.timestamps);
    assert_eq!(back.newest_timestamp, 99);
    assert_eq!(back.present_count(), 3);
}

#[test]
fn v1_payload_is_not_stored_raw() {
    // The blob between header and footer is a zstd frame, not the payload.
    let region = sample_region(LinearVersion::V1);
    let payload = linear_v1_payload(&region);
    assert_eq!(payload.len(), 8192 + 3 + 11 + 1);
    let bytes = write_linear_v1(&region, 1).unwrap();
    let blob = &bytes[32..bytes.len() - 8];
    assert_ne!(blob, payload.as_slice());
    assert_eq!(decompress_zstd_ruzstd_or_zstd(blob).unwrap(), payload);
}

#[test]
fn v1_read_errors() {
    assert_eq!(read_linear_v1(&[0u8; 10]).unwrap_err(), "linear v1: truncated");
    assert_eq!(read_linear_v1(&[0u8; 40]).unwrap_err(), "linear v1: bad header signature");
    let region = sample_region(LinearVersion::V1);
    let mut bytes = write_linear_v1(&region, 3).unwrap();
    let n = bytes.len();
    bytes[n - 1] ^= 1;
    assert_eq!(read_linear_v1(&bytes).unwrap_err(), "linear v1: bad footer signature");
    let mut bytes = write_linear_v1(&region, 3).unwrap();
    bytes[8] = 2;
    assert_eq!(read_linear_v1(&bytes).unwrap_err(), "linear v1: unexpected version 2");
    let mut bytes = write_linear_v1(&region, 3).unwrap();
    bytes[23] = bytes[23].wrapping_add(1);
    let err = read_linear_v1(&bytes).unwrap_err();
    assert!(err.starts_with("linear v1: compressed length mismatch (header="));
}

#[test]
fn v1_payload_errors() {
    assert_eq!(
        parse_linear_v1_payload(0, 0, &[0u8; 10]).unwrap_err(),
        "linear v1: decompressed too short"
    );
    let mut d = vec![0u8; 8192];
    d[3] = 4; // chunk 0 declares 4 bytes that are not there
    assert_eq!(
        parse_linear_v1_payload(0, 1, &d).unwrap_err(),
        "linear v1: decompressed size invalid"
    );
    d.extend_from_slice(&[1, 2, 3, 4]);
    assert_eq!(
        parse_linear_v1_payload(0, 2, &d).unwrap_err(),
        "linear v1: chunk count mismatch (header=2 actual=1)"
    );
    let r = parse_linear_v1_payload(77, 1, &d).unwrap();
    assert_eq!(r.chunks[0].as_deref(), Some(&[1u8, 2, 3, 4][..]));
    assert_eq!(r.newest_timestamp, 77);
}

#[test]
fn v2_written_file_reads_back_exactly() {
    let mut region = sample_region(LinearVersion::V2);
    region.grid_size = 4;
    region.newest_timestamp = 1234;
    let bytes = write_linear_v2(&region).unwrap();
    assert_eq!(bytes[8], 2);
    assert_eq!(bytes[17], 4);
    let back = read_linear_v2(&bytes).unwrap();
    assert_eq!(back.chunks, region.chunks);
    assert_eq!(back.timestamps, region.timestamps);
    assert_eq!(back.region_x, 3);
    assert_eq!(back.region_z, -4);
    assert_eq!(back.newest_timestamp, 1234);
    assert_eq!(back.grid_size, 4);
}

#[test]
fn v2_invalid_grid_is_written_with_default() {
    let mut region = sample_region(LinearVersion::V2);
    region.grid_size = 3;
    let bytes = write_linear_v2(&region).unwrap();
    assert_eq!(bytes[17], 2);
    let back = read_linear_v2(&bytes).unwrap();
    assert_eq!(back.grid_size, 2);
    assert_eq!(back.chunks, region.chunks);
}

#[test]
fn v2_read_errors() {
    assert_eq!(read_linear_v2(&[0u8; 5]).unwrap_err(), "linear v2: truncated superblock");
    let region = sample_region(LinearVersion::V2);
    let good = write_linear_v2(&region).unwrap();
    let mut bad = good.clone();
    bad[17] = 5;
    assert_eq!(read_linear_v2(&bad).unwrap_err(), "linear v2: bad grid_size 5");
    assert_eq!(read_linear_v2(&good[..100]).unwrap_err(), "linear v2: truncated bitmap");
    // Corrupt the first byte of the first bucket frame: the hash no longer matches.
    let first_bucket = 26 + 128 + 1 + 4 * 13;
    let mut tampered = good.clone();
    tampered[first_bucket] ^= 0xff;
    assert_eq!(
        read_linear_v2(&tampered).unwrap_err(),
        "linear v2: xxhash mismatch bucket 0"
    );
    let mut no_footer = good.clone();
    let n = no_footer.len();
    no_footer[n - 1] ^= 1;
    assert_eq!(read_linear_v2(&no_footer).unwrap_err(), "linear v2: bad footer signature");
}

#[test]
fn read_and_write_dispatch_on_version() {
    for v in [LinearVersion::V1, LinearVersion::V2] {
        let region = sample_region(v);
        let bytes = write_linear(&region).unwrap();
        let back = read_linear(&bytes).unwrap();
        assert_eq!(back.version, v);
        assert_eq!(back.chunks, region.chunks);
    }
    assert_eq!(read_linear(&[9u8; 4]).unwrap_err(), "linear: file too short");
}

#[test]
fn chunk_index_and_bucket_grid() {
    assert_eq!(LinearRegion::chunk_index(3, 5), 163);
    // grid 2: bucket 1 is the top-right 16x16 block
    assert_eq!(global_chunk_index(1, 0, 2), 16);
    assert_eq!(global_chunk_index(3, 255, 2), 1023);
    assert_eq!(global_chunk_index(0, 17, 2), 33);
}

#[test]
fn set_none_clears_chunk_and_timestamp() {
    let mut r = LinearRegion::empty(0, 0);
    r.set(1, 1, Some(vec![1, 2]), 50);
    assert_eq!(r.newest_timestamp, 50);
    r.set(1, 1, None, 70);
    assert!(r.get(1, 1).is_none());
    assert_eq!(r.timestamps[33], 0);
    assert_eq!(r.newest_timestamp, 50);
}

// ---------------------------------------------------------------- region

#[test]
fn region_coordinates_and_names() {
    assert_eq!(region_coords(-1, 33), (-1, 1));
    assert_eq!(region_coords(-33, 31), (-2, 0));
    assert_eq!(local_chunk(-1, 33), (31, 1));
    assert_eq!(region_file_name(-1, 2), "r.-1.2.mca");
    assert_eq!(linear_file_name(0, -7), "r.0.-7.linear");
    assert_eq!(linear_source_marker_name(1, 1), "r.1.1.linear.source");
}

#[test]
fn region_name_parsing() {
    assert_eq!(parse_region_name("r.-3.4.mca").unwrap(), (-3, 4));
    assert_eq!(parse_region_name("r.5.6.linear").unwrap(), (5, 6));
    assert_eq!(parse_region_name("x.1.2.mca").unwrap_err(), "bad region name x.1.2.mca");
    assert_eq!(parse_region_name("r.mca").unwrap_err(), "missing rx");
    assert_eq!(parse_region_name("r.a.2.mca").unwrap_err(), "bad rx");
    assert_eq!(parse_region_name("r.1.mca").unwrap_err(), "missing rz");
    assert_eq!(parse_region_name("r.1.b.mca").unwrap_err(), "bad rz");
}

#[test]
fn region_format_from_file_name() {
    assert_eq!(RegionFormat::from_path(Some("r.0.0.mca")), Some(RegionFormat::Anvil));
    assert_eq!(RegionFormat::from_path(Some("r.0.0.linear")), Some(RegionFormat::LinearV1));
    assert_eq!(RegionFormat::from_path(Some("notes.txt")), None);
    assert_eq!(RegionFormat::from_path(None), None);
    assert!(RegionFormat::LinearV2.is_linear());
    assert!(!RegionFormat::Anvil.is_linear());
}

#[test]
fn linear_marker_roundtrip() {
    for v in [LinearVersion::V1, LinearVersion::V2] {
        assert_eq!(linear_marker_version(&linear_marker_text(v)), v);
    }
    assert_eq!(linear_marker_version(" 2 "), LinearVersion::V2);
    assert_eq!(linear_marker_version("garbage"), LinearVersion::V1);
}

// ---------------------------------------------------------------- history

#[test]
fn history_cursor_moves() {
    let mut h = History::restore("hist".into(), Some(" 2\n"), 3);
    assert_eq!(h.position(), 2);
    assert_eq!(h.size(), 3);
    assert_eq!(h.dir(), "hist");
    assert_eq!(h.undo_target_id().unwrap(), 2);
    assert_eq!(h.redo_target_id().unwrap(), 3);
    h.mark_undone().unwrap();
    h.mark_redone().unwrap();
    assert_eq!(h.position(), 2);
    let (dropped, id) = h.push_slot();
    assert_eq!(dropped, vec![3]);
    assert_eq!(id, 3);
    assert_eq!((h.size(), h.position()), (3, 3));
    assert!(matches!(h.mark_redone(), Err(Error::NothingToRedo)));
    assert_eq!(h.head_text(), "3\n");
}

#[test]
fn history_restore_clamps_and_defaults() {
    assert_eq!(History::restore("d".into(), Some("9"), 4).position(), 4);
    assert_eq!(History::restore("d".into(), Some("junk"), 4).position(), 0);
    assert_eq!(History::restore("d".into(), None, 4).position(), 0);
    let mut empty = History::restore("d".into(), None, 0);
    assert!(matches!(empty.mark_undone(), Err(Error::NothingToUndo)));
    assert!(matches!(empty.undo_target_id(), Err(Error::NothingToUndo)));
}

#[test]
fn history_revert_plan() {
    let mut h = History::restore("d".into(), Some("5"), 5);
    assert!(matches!(h.revert_plan(9), Err(Error::HistoryOutOfRange(9, 5))));
    assert_eq!(h.revert_plan(2).unwrap(), vec![5, 4, 3]);
    assert_eq!(h.position(), 2);
    assert_eq!(h.revert_plan(4).unwrap(), Vec::<usize>::new());
    assert_eq!(h.position(), 2);
}

#[test]
fn history_file_names() {
    assert_eq!(action_file_name(7), "00007.json");
    assert_eq!(action_file_name(123456), "123456.json");
    let names: Vec<String> = vec!["00002.json".into(), "HEAD".into(), "00010.json".into(), "x.json".into()];
    assert_eq!(max_action_id(&names), 10);
}

#[test]
fn error_messages() {
    assert_eq!(Error::NothingToUndo.message(), "no active history entry to undo");
    assert_eq!(Error::NothingToRedo.message(), "no history entry to redo");
    assert_eq!(Error::HistoryOutOfRange(4, 2).message(), "history index 4 out of range (size=2)");
    assert_eq!(Error::ChunkMissing(-1, 3).message(), "chunk (-1, 3) missing");
    assert_eq!(Error::SessionNotFound("s".into()).message(), "session not found: s");
    assert_eq!(Error::Mca("x".into()).message(), "MCA error: x");
    assert_eq!(Error::msg("plain".into()).message(), "plain");
}

// ---------------------------------------------------------------- building

#[test]
fn grid_axis_edges() {
    assert_eq!(grid_axis(5, 4, 1), Vec::<i32>::new());
    assert_eq!(grid_axis(-3, 3, 0), vec![-3, -2, -1, 0, 1, 2, 3]);
    assert_eq!(grid_axis(2, 2, 7), vec![2]);
}

#[test]
fn stairs_normalisation_errors() {
    assert_eq!(normalize_facing(" West ").unwrap(), "west");
    assert_eq!(
        normalize_facing("Up").unwrap_err(),
        "bad stairs facing `up` (north|south|east|west)"
    );
    assert_eq!(normalize_half("LOWER").unwrap(), "bottom");
    assert_eq!(normalize_half("mid").unwrap_err(), "bad stairs half `mid` (bottom|top)");
    assert_eq!(normalize_shape("Inner-Left").unwrap(), "inner_left");
    assert_eq!(
        normalize_shape("curvy").unwrap_err(),
        "bad stairs shape `curvy` (straight|inner_left|inner_right|outer_left|outer_right)"
    );
}

#[test]
fn with_props_sets_in_key_order() {
    let base = BlockState::parse("minecraft:oak_stairs[half=top]").unwrap();
    let s = with_props(base, &[("facing", "east"), ("half", "bottom"), ("shape", "straight")]);
    assert_eq!(s.to_compact(), "minecraft:oak_stairs[facing=east,half=bottom,shape=straight]");
}

// ---------------------------------------------------------------- assets / models / view

#[test]
fn texture_candidates_by_kind() {
    assert_eq!(face_texture_candidates("oak_log", CubeFace::PosY), vec!["oak_log_top", "oak_log"]);
    assert_eq!(face_texture_candidates("oak_log", CubeFace::NegZ), vec!["oak_log"]);
    assert_eq!(
        face_texture_candidates("furnace", CubeFace::NegY),
        vec!["furnace_bottom", "furnace_top", "furnace"]
    );
    assert_eq!(face_texture_candidates("warped_nylium", CubeFace::PosX), vec!["warped_nylium_side"]);
    assert_eq!(face_texture_candidates("water", CubeFace::PosX), vec!["water_still", "water"]);
    assert!(CubeFace::PosY.is_top() && CubeFace::NegY.is_bottom());
}

#[test]
fn tint_and_stem() {
    assert_eq!(block_stem("minecraft:oak_leaves"), "oak_leaves");
    assert!(needs_biome_tint("minecraft:oak_leaves"));
    assert!(needs_biome_tint("minecraft:tall_grass"));
    assert!(needs_biome_tint("fern"));
    assert!(!needs_biome_tint("minecraft:stone"));
}

#[test]
fn face_dirs_and_paths() {
    assert_eq!(FaceDir::parse("north"), Some(FaceDir::North));
    assert_eq!(FaceDir::parse("sideways"), None);
    assert_eq!(FaceDir::West.offset(), (-1, 0, 0));
    assert_eq!(FaceDir::Up.invert(), FaceDir::Down);
    assert_eq!(map_cull_x270(map_cull_x90(Some(FaceDir::North))), Some(FaceDir::North));
    assert_eq!(map_cull_y180(Some(FaceDir::East)), Some(FaceDir::West));
    assert_eq!(map_cull_x90(None), None);
    assert_eq!(normalize_model_name("minecraft:stone"), "block/stone");
    assert_eq!(normalize_model_name("item/apple"), "item/apple");
    assert_eq!(texture_jar_path("minecraft:block/stone").unwrap(), "assets/minecraft/textures/block/stone.png");
    assert_eq!(texture_jar_path("#"), None);
}

#[test]
fn hash_color_matches_fnv1a() {
    // FNV-1a of "" is the offset basis 0x811c9dc5.
    assert_eq!(hash_color(""), [64 + 0x45, 64 + 0x1d, 64 + 0x1c]);
    let mut h: u32 = 2166136261;
    for b in "stone".bytes() {
        h ^= b as u32;
        h = h.wrapping_mul(16777619);
    }
    let expect = [
        64 + (h & 0x7f) as u8,
        64 + ((h >> 8) & 0x7f) as u8,
        64 + ((h >> 16) & 0x7f) as u8,
    ];
    assert_eq!(hash_color("stone"), expect);
}

// ---------------------------------------------------------------- ticks

#[test]
fn random_tick_rules() {
    assert!(is_random_tickable(&BlockState::parse("minecraft:wheat[age=1]").unwrap()));
    assert!(!is_random_tickable(&BlockState::new("minecraft:stone")));
    assert_eq!(age_max("minecraft:kelp"), Some(25));
    assert_eq!(age_max("minecraft:stone"), None);
    let w = BlockState::parse("minecraft:wheat[age=5]").unwrap();
    assert_eq!(prop_u8(&w, "age"), Some(5));
    assert_eq!(force_age_steps(&w, 10).unwrap().to_compact(), "minecraft:wheat[age=7]");
    let ripe = BlockState::parse("minecraft:wheat[age=7]").unwrap();
    assert!(force_age_steps(&ripe, 1).is_none());
    assert!(force_age_steps(&BlockState::new("minecraft:stone"), 1).is_none());
}

#[test]
fn xorshift_sequence() {
    let (s1, out1) = fastrand_u32(FASTRAND_SEED);
    let mut x = FASTRAND_SEED;
    x ^= x << 13;
    x ^= x >> 7;
    x ^= x << 17;
    assert_eq!(s1, x);
    assert_eq!(out1, x as u32);
}

// ---------------------------------------------------------------- versions / level / session

#[test]
fn version_errors_and_summary() {
    let err = ResolvedVersion::from_mc("1.7.10").unwrap_err();
    assert!(err.starts_with("unknown --mc `1.7.10`; known: 26.2, 1.21.11"));
    let v = ResolvedVersion::resolve(Some("1.20.1"), Some(3500)).unwrap();
    assert_eq!((v.name.as_str(), v.data_version, v.modern_layout), ("1.20.1", 3500, false));
    assert_eq!(ResolvedVersion::from_data_version(42).name, "data-42");
    assert!(supported_mc_summary().starts_with("26.2=4903, 1.21.11=4671"));
}

#[test]
fn level_names_and_lines() {
    assert_eq!(GeneratorKind::parse(" SuperFlat ").unwrap(), GeneratorKind::Flat);
    assert_eq!(GeneratorKind::parse("void").unwrap_err(), "unknown generator `void` (noise|flat)");
    assert_eq!(LevelRegionFormat::parse("MCA").unwrap(), LevelRegionFormat::Anvil);
    assert_eq!(
        LevelRegionFormat::parse("zip").unwrap_err(),
        "unknown region format `zip` (anvil|linear)"
    );
    let info = LevelInfo {
        path: "w/level.dat".into(),
        level_name: "w".into(),
        seed: Some(-5),
        spawn: [1, 64, -2],
        game_type: None,
        data_version: Some(4903),
        version_name: None,
        last_played: None,
        generator: Some("flat".into()),
        modern_layout: true,
    };
    let lines = info.lines();
    assert_eq!(lines[0], "level.dat=w/level.dat");
    assert_eq!(lines[2], "Seed=-5");
    assert_eq!(lines[3], "Spawn=1,64,-2");
    assert_eq!(lines[4], "GameType=-");
    assert_eq!(lines[9], "modern_layout=true");
}

fn lease(id: &str, from: [i32; 3], to: [i32; 3]) -> RegionLease {
    RegionLease { session: id.into(), label: None, from, to, updated_at: "0".into() }
}

#[test]
fn lease_overlap_and_conflicts() {
    let mine = lease("a", [0, 0, 0], [10, 10, 10]);
    let other = lease("b", [20, 5, 5], [5, 6, 6]);
    assert_eq!(other.aabb(), (5, 5, 5, 20, 6, 6));
    assert!(mine.overlaps(&other));
    let far = lease("c", [11, 0, 0], [12, 1, 1]);
    assert!(!mine.overlaps(&far));
    let same = lease("a", [0, 0, 0], [1, 1, 1]);
    let warnings = list_lease_conflicts(&mine, &[other, far, same]);
    assert_eq!(
        warnings,
        vec!["lease conflict: session=b label=- aabb=(20,5,5)..(5,6,6) overlaps ours".to_string()]
    );
}

#[test]
fn session_status_lines_put_label_second() {
    let s = Session {
        root: "/tmp/s".into(),
        meta: SessionMeta {
            id: "s1".into(),
            source_world: "world".into(),
            dim: ".".into(),
            created_at: "0".into(),
            dirty: true,
            next_action_hint: 0,
            label: Some("agent".into()),
            data_version: None,
        },
        history: History::restore("h".into(), Some("1"), 2),
        bootstrap_note: None,
    };
    assert_eq!(
        s.status_lines(),
        vec!["session=s1", "label=agent", "world=world", "dim=.", "dirty=true", "history=1/2", "path=/tmp/s"]
    );
}

#[test]
fn structure_lines() {
    let info = StructureInfo {
        path: "house.nbt".into(),
        size: [3, 4, 5],
        blocks: 60,
        entities: 0,
        palette: 4,
        data_version: None,
        author: Some("me".into()),
    };
    let lines = info.lines();
    assert_eq!(lines[1], "size=3x4x5");
    assert_eq!(lines[5], "DataVersion=-");
    assert_eq!(lines[6], "author=me");
    assert_eq!(default_structure_data_version(), 4903);
}

// ---------------------------------------------------------------- schematics

#[test]
fn varint_roundtrip_and_errors() {
    let values = [0u32, 1, 127, 128, 300, 16384, u32::MAX];
    let mut data = Vec::new();
    for v in values {
        write_varint(&mut data, v);
    }
    assert_eq!(&data[..3], &[0, 1, 127]);
    assert_eq!(&data[3..5], &[0x80, 0x01]);
    assert_eq!(read_varints(&data, 100).unwrap(), values.to_vec());
    assert_eq!(read_varints(&data, 2).unwrap(), vec![0, 1]);
    assert_eq!(
        read_varints(&[0x80], 5).unwrap_err(),
        "truncated varint in schem BlockData"
    );
}

#[test]
fn families_and_spacing() {
    assert_eq!(block_family("minecraft:oak_stairs"), "stairs");
    assert_eq!(block_family("minecraft:stone_bricks"), "masonry");
    assert_eq!(block_family("minecraft:glass_pane"), "glass");
    assert_eq!(block_family("minecraft:quartz_pillar"), "pillar");
    assert_eq!(block_family("minecraft:oak_log"), "log");
    assert_eq!(block_family("minecraft:diamond_block"), "other");
    assert_eq!(gcd_u32(12, 18), 6);
    assert_eq!(gcd_u32(7, 0), 7);
    assert_eq!(gcd_gaps(&[0, 4, 8, 16]), Some(4));
    assert_eq!(gcd_gaps(&[3]), None);
    assert_eq!(gcd_gaps(&[2, 5, 11]), Some(3));
}

#[test]
fn schem_lines_with_histogram() {
    let info = SchemInfo {
        version: 2,
        data_version: Some(3465),
        mc: Some("1.20.1".into()),
        width: 2,
        height: 1,
        length: 1,
        offset: [1, -2, 3],
        palette_n: 2,
        volume: 2,
        entities: 0,
        block_entities: 0,
        top_blocks: vec![("minecraft:stone".into(), 1), ("minecraft:air".into(), 1)],
        path: "a.schem".into(),
    };
    let lines = info.lines();
    assert_eq!(lines.len(), 11);
    assert_eq!(lines[4], "size=2x1x1");
    assert_eq!(lines[5], "offset=1,-2,3");
    assert_eq!(lines[10], "blocks_top=minecraft:stone=1,minecraft:air=1");
}

#[test]
fn mca_short_input_is_an_empty_region() {
    let r = mca_to_linear_v1(&[0u8; 100], 4, -3).unwrap();
    assert_eq!(r.present_count(), 0);
    assert_eq!(r.region_x, 4);
    assert_eq!(r.region_z, -3);
    assert_eq!(r.version, LinearVersion::V1);
}

#[test]
fn mca_bad_chunk_header_is_an_mca_error() {
    let mut bytes = vec![0u8; 8192];
    // chunk (0, 0) claims sector 2 with one sector, but the file ends after the headers
    bytes[2] = 2;
    bytes[3] = 1;
    assert!(mca_records_ok(&bytes));
    match mca_to_linear_v1(&bytes, 0, 0) {
        Err(Error::Mca(_)) => {}
        _ => panic!("expected an MCA error"),
    }
}

#[test]
fn linear_to_mca_keeps_every_chunk() {
    let mut region = LinearRegion::empty(0, 0);
    region.set(0, 0, Some(vec![1, 2, 3]), 5);
    region.set(31, 7, Some(vec![9; 5000]), 6);
    let mca = linear_to_mca_bytes(&region).unwrap();
    assert!(mca.len() >= 8192);
    let back = mca_to_linear_v1(&mca, 0, 0).unwrap();
    assert_eq!(back.present_count(), 2);
    assert_eq!(back.get(0, 0).unwrap(), &[1, 2, 3]);
    assert_eq!(back.get(31, 7).unwrap(), vec![9u8; 5000].as_slice());
    assert_eq!(back.timestamps[LinearRegion::chunk_index(31, 7)], 0);
}

#[test]
fn chunk_structures_summarised() {
    assert_eq!(chunk_structure_summary(None), vec!["structures=(none)".to_string()]);
    let st = ChunkStructures {
        starts: Some(vec![
            ("minecraft:village_plains".to_string(), Some("minecraft:village_plains".to_string())),
            ("minecraft:fortress".to_string(), None),
        ]),
        references: Some(vec![
            ("minecraft:village_plains".to_string(), Some(3)),
            ("minecraft:mineshaft".to_string(), None),
        ]),
    };
    assert_eq!(
        chunk_structure_summary(Some(&st)),
        vec![
            "starts=2",
            "  start minecraft:village_plains id=minecraft:village_plains",
            "  start minecraft:fortress id=-",
            "References=2",
            "  ref minecraft:village_plains chunks=3",
            "  ref minecraft:mineshaft chunks=0",
        ]
    );
    let empty = ChunkStructures { starts: None, references: None };
    assert_eq!(chunk_structure_summary(Some(&empty)), vec!["structures=(empty)".to_string()]);
    let no_starts = ChunkStructures { starts: Some(vec![]), references: None };
    assert_eq!(chunk_structure_summary(Some(&no_starts)), vec!["starts=0".to_string()]);
}

fn cond(entries: &[(&str, Option<&str>)]) -> Condition {
    Condition {
        entries: Some(
            entries
                .iter()
                .map(|(k, v)| (k.to_string(), v.map(|s| s.to_string())))
                .collect(),
        ),
    }
}

#[test]
fn multipart_when_clauses() {
    let props = BlockState::parse("minecraft:oak_fence[east=true,north=false]")
        .unwrap()
        .properties()
        .clone();
    assert!(when_matches(None, &props));
    let east = cond(&[("east", Some("true"))]);
    let north = cond(&[("north", Some("true"))]);
    assert!(clause_matches(&east, &props));
    assert!(!clause_matches(&north, &props));
    assert!(clause_matches(&cond(&[("north", Some("true|false"))]), &props));
    assert!(!clause_matches(&cond(&[("west", Some("true"))]), &props));
    assert!(!clause_matches(&cond(&[("east", None)]), &props));
    assert!(clause_matches(&cond(&[("OR", None), ("east", Some("true"))]), &props));
    assert!(!clause_matches(&Condition { entries: None }, &props));
    assert!(when_matches(Some(&WhenClause::Or(vec![north.clone(), east.clone()])), &props));
    assert!(!when_matches(Some(&WhenClause::And(vec![north.clone(), east.clone()])), &props));
    assert!(when_matches(Some(&WhenClause::And(vec![east.clone()])), &props));
    assert!(!when_matches(Some(&WhenClause::Or(vec![])), &props));
    assert!(when_matches(Some(&WhenClause::Plain(east)), &props));
}

#[test]
fn first_matching_variant_and_textures() {
    let props = BlockState::parse("minecraft:oak_log[axis=x]").unwrap().properties().clone();
    let keys = vec!["axis=y".to_string(), "axis=x".to_string(), "".to_string()];
    assert_eq!(match_variant(&keys, &props), Some(1));
    assert_eq!(match_variant(&vec!["axis=z".to_string()], &props), None);
    assert_eq!(match_variant(&vec!["".to_string()], &props), Some(0));

    let tex = vec![
        ("all".to_string(), Some("#side".to_string())),
        ("side".to_string(), Some("block/oak_log".to_string())),
        ("end".to_string(), Some("foo:block/end".to_string())),
        ("bad".to_string(), None),
        ("loop".to_string(), Some("#loop".to_string())),
    ];
    assert_eq!(resolve_texture(&tex, "#all").as_deref(), Some("minecraft:block/oak_log"));
    assert_eq!(resolve_texture(&tex, "#end").as_deref(), Some("foo:block/end"));
    assert_eq!(resolve_texture(&tex, "block/x").as_deref(), Some("minecraft:block/x"));
    assert_eq!(resolve_texture(&tex, "#bad"), None);
    assert_eq!(resolve_texture(&tex, "#missing"), None);
    assert_eq!(resolve_texture(&tex, "#loop"), None);
    assert_eq!(resolve_texture(&tex, ""), None);
}

#[test]
fn entity_uuid_forms() {
    assert_eq!(
        uuid_of(&UuidField::Text("abc".to_string()), false).as_deref(),
        Some("abc")
    );
    assert_eq!(
        uuid_of(&UuidField::Ints(vec![Some(1), Some(2), Some(3), Some(4)]), false).as_deref(),
        Some("00000001-0000-0002-0000-000300000004")
    );
    assert_eq!(
        uuid_of(&UuidField::Ints(vec![Some(-1), Some(-2), Some(0x1234_5678), Some(0)]), false).as_deref(),
        Some("ffffffff-ffff-fffe-1234-567800000000")
    );
    assert_eq!(uuid_of(&UuidField::Ints(vec![Some(1), None, Some(3), Some(4)]), false), None);
    assert_eq!(uuid_of(&UuidField::Ints(vec![Some(1), Some(2), Some(3)]), false), None);
    assert_eq!(uuid_of(&UuidField::Other, false), None);
    let fresh = uuid_of(&UuidField::Other, true).unwrap();
    assert_eq!(fresh.len(), 36);
    assert_eq!(&fresh[14..15], "4");
    assert_eq!(entity_uuid(&UuidField::Text("x".to_string()), false), "x");
    assert_eq!(entity_uuid(&UuidField::Other, false).len(), 36);
}

#[test]
fn region_listing_coords() {
    let names: Vec<String> = [
        "r.0.0.mca",
        "r.0.0.linear",
        "r.-1.2.linear",
        "level.dat",
        "r.a.b.mca",
        "r.3.4.mca.tmp",
        "r.5.-6.mca",
    ]
    .iter()
    .map(|s| s.to_string())
    .collect();
    assert_eq!(region_file_coords(&names), vec![(0, 0), (-1, 2), (5, -6)]);
    assert!(region_file_coords(&vec![]).is_empty());
}

#[test]
fn linear_present_chunk_coords() {
    let mut lr = LinearRegion::empty(-1, 2);
    lr.set(3, 0, Some(vec![1]), 0);
    lr.set(0, 1, Some(vec![2]), 0);
    lr.set(31, 31, Some(vec![3]), 0);
    assert_eq!(
        linear_present_chunks(&lr, -1, 2),
        vec![(-29, 64), (-32, 65), (-1, 95)]
    );
}

#[test]
fn mca_short_custom_compression_record_is_refused() {
    // chunk (1, 0) at sector 2: length 2, compression byte 200 (custom) with no room for its name
    let mut bytes = vec![0u8; 3 * 4096];
    bytes[4 + 2] = 2;
    bytes[4 + 3] = 1;
    bytes[8192..8196].copy_from_slice(&2u32.to_be_bytes());
    bytes[8196] = 200;
    assert!(!chunk_record_ok(&bytes, 1, 0));
    assert!(chunk_record_ok(&bytes, 0, 0));
    assert!(!mca_records_ok(&bytes));
    // a built-in compression byte is fine
    bytes[8196] = 2;
    assert!(mca_records_ok(&bytes));
    // a custom name that fits is fine too
    bytes[8192..8196].copy_from_slice(&6u32.to_be_bytes());
    bytes[8196] = 200;
    bytes[8197] = 0;
    bytes[8198] = 3;
    assert!(mca_records_ok(&bytes));
    assert!(mca_records_ok(&[0u8; 10]));
}

#[test]
fn varints_read_up_to_the_limit() {
    let mut data = Vec::new();
    for v in [1u32, 300, 5, 70000] {
        write_varint(&mut data, v);
    }
    assert_eq!(read_varints(&data, 2).unwrap(), vec![1, 300]);
    assert_eq!(read_varints(&data, 0).unwrap(), Vec::<u32>::new());
    assert_eq!(read_varints(&data, 9).unwrap(), vec![1, 300, 5, 70000]);
}

#[test]
fn properties_compact_in_key_order() {
    let s = BlockState::parse("minecraft:oak_stairs[half=bottom,facing=north]").unwrap();
    assert_eq!(s.to_compact(), "minecraft:oak_stairs[facing=north,half=bottom]");
    let t = BlockState::new("minecraft:oak_stairs")
        .with_prop("half".to_string(), "bottom".to_string())
        .with_prop("facing".to_string(), "north".to_string())
        .with_prop("half".to_string(), "top".to_string());
    assert_eq!(t.to_compact(), "minecraft:oak_stairs[facing=north,half=top]");
    assert_eq!(t.properties().len(), 2);
    let a = BlockState::parse("minecraft:oak_stairs[half=top,facing=north]").unwrap();
    assert!(a == t);
    assert_eq!(a.clone().to_compact(), t.to_compact());
}
