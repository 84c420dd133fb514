use mcaedit_core::nbt::Nbt;
use mcaedit_core::schem_root::{
    import_origin, info_readable, schem_info_from_root, schem_offset, schem_root, schem_template_from_root,
};

fn comp(es: Vec<(&str, Nbt)>) -> Nbt {
    Nbt::Compound(es.into_iter().map(|(k, v)| (k.to_string(), v)).collect())
}

fn sponge_v2() -> Nbt {
    comp(vec![
        ("BlockData", Nbt::ByteArray(vec![0, 1, 1, 0])),
        ("DataVersion", Nbt::Int(3465)),
        ("Entities", Nbt::List(vec![comp(vec![])])),
        ("Height", Nbt::Short(1)),
        ("Length", Nbt::Short(2)),
        ("Offset", Nbt::IntArray(vec![1, -2, 3])),
        ("Palette", comp(vec![("minecraft:air", Nbt::Int(0)), ("minecraft:stone", Nbt::Int(1))])),
        ("Version", Nbt::Int(2)),
        ("Width", Nbt::Short(2)),
    ])
}

#[test]
fn wrapper_is_unwrapped() {
    let wrapped = comp(vec![("Schematic", sponge_v2())]);
    let root = schem_root(wrapped).unwrap();
    assert_eq!(schem_offset(&root), [1, -2, 3]);
    let lower = comp(vec![("schematic", sponge_v2())]);
    assert!(schem_root(lower).is_ok());
    assert_eq!(
        schem_root(comp(vec![("Other", Nbt::Int(1))])).unwrap_err(),
        "schem missing Schematic compound (or Width/Version); not a Sponge .schem?"
    );
    assert_eq!(schem_root(Nbt::Int(1)).unwrap_err(), "schem root is not a compound");
}

#[test]
fn classic_schematic_is_refused() {
    let classic = comp(vec![
        ("Blocks", Nbt::ByteArray(vec![1])),
        ("Materials", Nbt::Text("Alpha".to_string())),
        ("Width", Nbt::Short(1)),
    ]);
    assert!(schem_root(classic).unwrap_err().starts_with("classic MCEdit .schematic is not supported"));
}

#[test]
fn offset_from_list_and_missing_parts() {
    let r = comp(vec![("Offset", Nbt::List(vec![Nbt::Int(4), Nbt::Long(5)]))]);
    assert_eq!(schem_offset(&r), [4, 5, 0]);
    assert_eq!(schem_offset(&comp(vec![])), [0, 0, 0]);
    assert_eq!(import_origin(&sponge_v2(), 10, 64, -10), [11, 62, -7]);
}

#[test]
fn info_reports_dims_offset_and_top_blocks() {
    let root = sponge_v2();
    assert!(info_readable(&root));
    let i = schem_info_from_root(&root, "a.schem").unwrap();
    assert_eq!((i.version, i.data_version), (2, Some(3465)));
    assert_eq!(i.mc.as_deref(), Some("1.20.1"));
    assert_eq!((i.width, i.height, i.length, i.volume), (2, 1, 2, 4));
    assert_eq!(i.offset, [1, -2, 3]);
    assert_eq!((i.palette_n, i.entities, i.block_entities), (2, 1, 0));
    assert_eq!(
        i.top_blocks,
        vec![("minecraft:air".to_string(), 2), ("minecraft:stone".to_string(), 2)]
    );
    assert_eq!(i.path, "a.schem");
    let no_w = comp(vec![("Height", Nbt::Short(1))]);
    assert_eq!(schem_info_from_root(&no_w, "x").unwrap_err(), "schem missing Width");
}

#[test]
fn import_reads_blocks() {
    let t = schem_template_from_root(&sponge_v2(), "imp").unwrap();
    assert_eq!(t.size, [2, 1, 2]);
    assert_eq!(t.palette, vec!["minecraft:air".to_string(), "minecraft:stone".to_string()]);
    assert_eq!(t.blocks, vec![0, 1, 1, 0]);
    let v3 = comp(vec![("Height", Nbt::Short(1)), ("Length", Nbt::Short(1)), ("Version", Nbt::Int(3)), ("Width", Nbt::Short(1))]);
    assert_eq!(schem_template_from_root(&v3, "x").unwrap_err(), "v3 schem missing Blocks");
}
