use mcaedit_core::commit::{commit_kind, commit_report_line, CommitKind};
use mcaedit_core::level::{level_info_from, level_seed, LevelDatFields, LevelPatchOptions};
use mcaedit_core::level_patch::{level_patch_edits, LevelEdit};
use mcaedit_core::linear::LinearVersion;
use mcaedit_core::region::{linear_file_name, parse_region_name, region_file_name};
use mcaedit_core::session::{
    bootstrap_step, conflict_hint, create_refusal, dim_entities_dir, dim_region_dir, sync_file_action, sync_guard,
    sync_report_line, BootstrapStep, SyncFile,
};

#[test]
fn dimension_folders() {
    assert_eq!(dim_region_dir("overworld", false, true), "region");
    assert_eq!(dim_region_dir("", false, false), "region");
    assert_eq!(dim_region_dir("the_nether", false, true), "DIM-1/region");
    assert_eq!(dim_region_dir("end", false, true), "DIM1/region");
    assert_eq!(dim_region_dir("custom", true, true), "custom/region");
    assert_eq!(dim_region_dir("custom", false, true), "region");
    assert_eq!(dim_region_dir("custom", false, false), "custom/region");
    assert_eq!(dim_entities_dir("nether", false, true), "DIM-1/entities");
    assert_eq!(dim_entities_dir(".", false, true), "entities");
    assert_eq!(dim_entities_dir("custom", true, false), "custom/entities");
}

#[test]
fn commit_classifies_working_files() {
    assert_eq!(commit_kind("r.1.-2.mca"), CommitKind::AnvilOf(1, -2));
    assert_eq!(commit_kind("r.0.0.linear"), CommitKind::Copy);
    assert_eq!(commit_kind("r.0.0.linear.source"), CommitKind::Skip);
    assert_eq!(commit_kind("notes.txt"), CommitKind::Skip);
    assert_eq!(commit_kind("bad.mca"), CommitKind::Skip);
    assert_eq!(
        commit_report_line("region", "r.1.2.mca", "/w/region/r.1.2.linear", Some(LinearVersion::V2)),
        "region/r.1.2.mca -> /w/region/r.1.2.linear (linear V2)"
    );
    assert_eq!(
        commit_report_line("entities", "r.0.0.mca", "/w/entities/r.0.0.mca", None),
        "entities/r.0.0.mca -> /w/entities/r.0.0.mca"
    );
}

fn opts<'a>() -> LevelPatchOptions<'a> {
    LevelPatchOptions {
        level_name: None,
        seed: None,
        spawn: None,
        game_type: None,
        data_version: None,
        version_name: None,
        touch_last_played: false,
    }
}

#[test]
fn level_patch_edits_in_order() {
    let mut o = opts();
    o.level_name = Some("My World");
    o.spawn = Some([1, 64, -3]);
    o.data_version = Some(3953);
    o.seed = Some(42);
    o.touch_last_played = true;
    let edits = level_patch_edits(&o, false, true, false, 1000);
    let text: Vec<String> = edits.iter().map(|e| format!("{e:?}")).collect();
    assert_eq!(
        text,
        vec![
            "SetText(\"LevelName\", \"My World\")",
            "SetInt(\"SpawnX\", 1)",
            "SetInt(\"SpawnY\", 64)",
            "SetInt(\"SpawnZ\", -3)",
            "SetInt(\"DataVersion\", 3953)",
            "AddVersion(3953, \"custom\")",
            "SetInt(\"RandomSeed\", 42)",
            "SetWorldGenSeed(42)",
            "SetLastPlayed(1000)",
        ]
    );
    let mut o = opts();
    o.version_name = Some("1.21");
    assert_eq!(level_patch_edits(&o, false, false, false, 0).len(), 0);
    let e = level_patch_edits(&o, true, false, false, 0);
    assert!(matches!(&e[0], LevelEdit::SetVersionName(n) if n == "1.21"));
    let mut o = opts();
    o.seed = Some(-5);
    let e = level_patch_edits(&o, false, false, true, 0);
    assert!(matches!(e[1], LevelEdit::SetSidecarSeed(-5)));
}

#[test]
fn bootstrap_decisions() {
    assert_eq!(bootstrap_step(false, false, true, false, false, false), BootstrapStep::MissingWorld);
    assert_eq!(bootstrap_step(true, false, false, true, false, true), BootstrapStep::Keep);
    assert_eq!(bootstrap_step(true, true, false, true, false, true), BootstrapStep::EnsureDirs);
    assert_eq!(bootstrap_step(true, false, true, false, false, false), BootstrapStep::CreateWorld(true));
    assert_eq!(bootstrap_step(true, true, false, true, true, true), BootstrapStep::CreateWorld(true));
    assert_eq!(bootstrap_step(true, false, true, true, true, true), BootstrapStep::Keep);
    assert_eq!(bootstrap_step(false, true, true, false, false, false), BootstrapStep::CreateWorld(true));
}

fn fields() -> LevelDatFields {
    LevelDatFields {
        level_name: None,
        spawn_x: None,
        spawn_y: None,
        spawn_z: None,
        data_version: None,
        world_gen_seed: None,
        random_seed: None,
        game_type: None,
        version_name: None,
        last_played: None,
        generator: None,
    }
}

#[test]
fn level_info_defaults_and_seed_order() {
    let info = level_info_from("w/level.dat".to_string(), fields(), Some(9), false);
    assert_eq!(info.level_name, "world");
    assert_eq!(info.spawn, [0, 64, 0]);
    assert_eq!(info.seed, Some(9));
    assert!(!info.modern_layout);
    let mut f = fields();
    f.random_seed = Some(5);
    f.world_gen_seed = Some(7);
    f.data_version = Some(4435);
    f.spawn_x = Some(-12);
    f.level_name = Some("Old".to_string());
    assert_eq!(level_seed(&f), Some(7));
    let info = level_info_from("p".to_string(), f, Some(9), false);
    assert_eq!(info.seed, Some(7));
    assert_eq!(info.spawn, [-12, 64, 0]);
    assert!(info.modern_layout);
    assert_eq!(info.level_name, "Old");
    let mut f = fields();
    f.random_seed = Some(5);
    f.data_version = Some(4434);
    let info = level_info_from("p".to_string(), f, None, true);
    assert_eq!(info.seed, Some(5));
    assert_eq!(info.data_version, Some(4434));
    assert!(info.modern_layout);
}

#[test]
fn work_copy_refresh_rules() {
    assert!(sync_guard(false, false).is_ok());
    assert!(sync_guard(true, true).is_ok());
    assert_eq!(
        sync_guard(true, false).unwrap_err(),
        "session dirty; commit/discard or pass --force to overwrite work copy"
    );
    assert_eq!(sync_file_action("r.0.0.linear"), SyncFile::ConvertLinear);
    assert_eq!(sync_file_action("r.0.0.mca"), SyncFile::Copy);
    assert_eq!(sync_file_action("r.0.0.mca.tmp"), SyncFile::Skip);
    assert_eq!(sync_report_line("region", Some(3)), "region: copied 3 files");
    assert_eq!(sync_report_line("entities", None), "entities: source missing, left empty");
}

#[test]
fn region_conflict_hints() {
    assert_eq!(
        conflict_hint("r.0.0.mca", "s2", Some("bot"), Some(5), Some(9)).as_deref(),
        Some("region conflict hint: r.0.0.mca also dirty in session=s2 label=bot (their mtime newer; sync/coordinate before commit)")
    );
    assert_eq!(
        conflict_hint("r.0.0.mca", "s2", None, Some(5), Some(9)).as_deref(),
        Some("region conflict hint: r.0.0.mca also dirty in session=s2 label=- (their mtime newer; sync/coordinate before commit)")
    );
    assert_eq!(conflict_hint("r.0.0.mca", "s2", None, Some(9), Some(9)), None);
    assert_eq!(conflict_hint("r.0.0.mca", "s2", None, None, Some(9)), None);
}

#[test]
fn session_creation_refusals() {
    assert_eq!(
        create_refusal("/w", false, false, "/w/region", false, "s1", false).as_deref(),
        Some("world path missing: /w (pass --bootstrap to create)")
    );
    assert_eq!(
        create_refusal("/w", true, false, "/w/region", false, "s1", false).as_deref(),
        Some("region dir missing: /w/region (use session create --bootstrap)")
    );
    assert_eq!(
        create_refusal("/w", false, true, "/w/region", true, "s1", true).as_deref(),
        Some("session `s1` already exists")
    );
    assert_eq!(create_refusal("/w", true, false, "/w/region", true, "s1", false), None);
}

#[test]
fn region_names_read_back() {
    for (x, z) in [(0, 0), (-1, 5), (i32::MIN, i32::MAX)] {
        assert_eq!(parse_region_name(&region_file_name(x, z)), Ok((x, z)));
        assert_eq!(parse_region_name(&linear_file_name(x, z)), Ok((x, z)));
    }
    assert!(parse_region_name("x.1.2.mca").is_err());
    assert!(parse_region_name("r.a.2.mca").is_err());
    assert!(parse_region_name("r.1.mca").is_err());
}
