use mcaedit_core::level::{level_dat_fields_of, sidecar_seed_of, LevelPatchOptions};
use mcaedit_core::level_patch::{patch_level_root, patch_sidecar_seed};
use mcaedit_core::nbt::{pack_nbt_file, unpack_nbt_file, Nbt};

fn comp(es: Vec<(&str, Nbt)>) -> Nbt {
    Nbt::Compound(es.into_iter().map(|(k, v)| (k.to_string(), v)).collect())
}

fn text(s: &str) -> Nbt {
    Nbt::Text(s.to_string())
}

fn get<'a>(n: &'a Nbt, k: &str) -> Option<&'a Nbt> {
    match n {
        Nbt::Compound(es) => es.iter().find(|e| e.0 == k).map(|e| &e.1),
        _ => None,
    }
}

fn opts() -> LevelPatchOptions<'static> {
    LevelPatchOptions {
        level_name: None,
        seed: None,
        spawn: None,
        game_type: None,
        data_version: None,
        version_name: None,
        touch_last_played: false,
    }
}

fn sample() -> Nbt {
    comp(vec![(
        "Data",
        comp(vec![
            ("LevelName", text("old")),
            ("hardcore", Nbt::Byte(1)),
            ("Version", comp(vec![("Id", Nbt::Int(3465)), ("Name", text("1.20.1"))])),
            ("WorldGenSettings", comp(vec![("seed", Nbt::Long(7))])),
        ]),
    )])
}

#[test]
fn patch_sets_named_fields_and_keeps_others() {
    let mut o = opts();
    o.level_name = Some("new");
    o.seed = Some(42);
    o.spawn = Some([1, 70, -3]);
    o.data_version = Some(3700);
    let r = patch_level_root(sample(), &o, false, 0).unwrap();
    let d = get(&r, "Data").unwrap();
    assert!(matches!(get(d, "LevelName"), Some(Nbt::Text(s)) if s == "new"));
    assert!(matches!(get(d, "hardcore"), Some(Nbt::Byte(1))));
    assert!(matches!(get(d, "RandomSeed"), Some(Nbt::Int(42))));
    assert!(matches!(get(d, "SpawnX"), Some(Nbt::Int(1))));
    assert!(matches!(get(d, "SpawnY"), Some(Nbt::Int(70))));
    assert!(matches!(get(d, "SpawnZ"), Some(Nbt::Int(-3))));
    assert!(matches!(get(d, "DataVersion"), Some(Nbt::Int(3700))));
    let v = get(d, "Version").unwrap();
    assert!(matches!(get(v, "Id"), Some(Nbt::Int(3700))));
    assert!(matches!(get(v, "Name"), Some(Nbt::Text(s)) if s == "1.20.1"));
    let w = get(d, "WorldGenSettings").unwrap();
    assert!(matches!(get(w, "seed"), Some(Nbt::Int(42))));
}

#[test]
fn patch_adds_version_and_long_numbers() {
    let mut o = opts();
    o.data_version = Some(3465);
    o.seed = Some(1 << 40);
    o.touch_last_played = true;
    let root = comp(vec![("Data", comp(vec![]))]);
    let r = patch_level_root(root, &o, false, 1_700_000_000_000).unwrap();
    let d = get(&r, "Data").unwrap();
    let v = get(d, "Version").unwrap();
    match v {
        Nbt::Compound(es) => {
            let keys: Vec<&str> = es.iter().map(|e| e.0.as_str()).collect();
            assert_eq!(keys, vec!["Id", "Name", "Series", "Snapshot"]);
        }
        _ => panic!("Version is not a compound"),
    }
    assert!(matches!(get(v, "Name"), Some(Nbt::Text(s)) if s == "custom"));
    assert!(matches!(get(v, "Series"), Some(Nbt::Text(s)) if s == "main"));
    assert!(matches!(get(v, "Snapshot"), Some(Nbt::Byte(0))));
    assert!(matches!(get(d, "RandomSeed"), Some(Nbt::Long(x)) if *x == 1 << 40));
    assert!(matches!(get(d, "LastPlayed"), Some(Nbt::Long(1_700_000_000_000))));
    assert!(get(d, "WorldGenSettings").is_none());
}

#[test]
fn patch_without_data_is_refused() {
    let e = patch_level_root(comp(vec![("Other", Nbt::Int(1))]), &opts(), false, 0).unwrap_err();
    assert_eq!(e, "level.dat missing Data");
    let e = patch_level_root(comp(vec![("Data", Nbt::Int(1))]), &opts(), false, 0).unwrap_err();
    assert_eq!(e, "level.dat missing Data");
    let e = patch_level_root(Nbt::Int(1), &opts(), false, 0).unwrap_err();
    assert_eq!(e, "level.dat missing Data");
}

#[test]
fn sidecar_seed_goes_under_data_or_root() {
    let a = patch_sidecar_seed(comp(vec![("data", comp(vec![("seed", Nbt::Long(1))]))]), 9);
    assert_eq!(sidecar_seed_of(&a), Some(9));
    assert!(get(&a, "seed").is_none());
    let b = patch_sidecar_seed(comp(vec![]), 5);
    assert!(matches!(get(&b, "seed"), Some(Nbt::Int(5))));
    assert_eq!(sidecar_seed_of(&b), Some(5));
}

#[test]
fn fields_read_from_data() {
    let f = level_dat_fields_of(&sample()).unwrap();
    assert_eq!(f.level_name.as_deref(), Some("old"));
    assert_eq!(f.world_gen_seed, Some(7));
    assert_eq!(f.version_name.as_deref(), Some("1.20.1"));
    assert_eq!(f.random_seed, None);
    assert_eq!(f.spawn_x, None);
    assert!(level_dat_fields_of(&comp(vec![])).is_err());
}

#[test]
fn gzip_framing_round_trips() {
    let raw = vec![10u8, 0, 0, 0];
    assert_eq!(unpack_nbt_file(&raw), raw);
    let packed = pack_nbt_file(&raw);
    assert_ne!(packed, raw);
    assert_eq!(unpack_nbt_file(&packed), raw);
}

#[test]
fn patched_name_and_seed_read_back() {
    let mut o = opts();
    o.level_name = Some("Renamed");
    o.seed = Some(-5);
    o.touch_last_played = true;
    let r = patch_level_root(sample(), &o, true, 99).unwrap();
    let f = level_dat_fields_of(&r).unwrap();
    assert_eq!(f.level_name.as_deref(), Some("Renamed"));
    assert_eq!(f.random_seed, Some(-5));
    assert_eq!(f.world_gen_seed, Some(-5));
    assert_eq!(f.last_played, Some(99));
}
