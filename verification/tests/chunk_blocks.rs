use mcaedit_core::blockstate::BlockState;
use mcaedit_core::chunk_nbt::{state_from_tag, state_to_tag, ChunkNbt};
use mcaedit_core::nbt::Nbt;

fn comp(es: Vec<(&str, Nbt)>) -> Nbt {
    Nbt::Compound(es.into_iter().map(|(k, v)| (k.to_string(), v)).collect())
}

fn empty_chunk() -> ChunkNbt {
    ChunkNbt::from_root(comp(vec![
        ("xPos", Nbt::Int(3)),
        ("zPos", Nbt::Int(-2)),
        ("sections", Nbt::List(vec![])),
    ]))
}

#[test]
fn chunk_position_from_root() {
    let c = empty_chunk();
    assert_eq!((c.chunk_x, c.chunk_z), (3, -2));
    let d = ChunkNbt::from_root(comp(vec![]));
    assert_eq!((d.chunk_x, d.chunk_z), (0, 0));
}

#[test]
fn get_after_set_gives_the_state() {
    let mut c = empty_chunk();
    assert_eq!(c.get_block(1, 5, 2).unwrap().to_compact(), "minecraft:air");
    let s = BlockState::parse("minecraft:oak_stairs[half=top,facing=east]").unwrap();
    let before = c.set_block(1, 5, 2, s.clone()).unwrap();
    assert_eq!(before.to_compact(), "minecraft:air");
    assert_eq!(c.get_block(1, 5, 2).unwrap().to_compact(), "minecraft:oak_stairs[facing=east,half=top]");
    assert_eq!(c.get_block(2, 5, 2).unwrap().to_compact(), "minecraft:air");
    // a second block in the same section, then the first is still there
    let stone = BlockState::new("minecraft:stone");
    let before = c.set_block(15, 0, 15, stone).unwrap();
    assert_eq!(before.to_compact(), "minecraft:air");
    assert_eq!(c.get_block(15, 0, 15).unwrap().to_compact(), "minecraft:stone");
    assert_eq!(c.get_block(1, 5, 2).unwrap().to_compact(), "minecraft:oak_stairs[facing=east,half=top]");
    // another section, below zero
    c.set_block(0, -60, 0, BlockState::new("minecraft:bedrock")).unwrap();
    assert_eq!(c.get_block(0, -60, 0).unwrap().to_compact(), "minecraft:bedrock");
    assert_eq!(c.find_section_index(-4).unwrap(), Some(1));
    assert_eq!(c.find_section_index(7).unwrap(), None);
}

#[test]
fn chunk_without_sections_is_refused() {
    let mut c = ChunkNbt::from_root(comp(vec![]));
    assert_eq!(c.get_block(0, 0, 0).unwrap_err(), "chunk missing sections");
    assert!(c.set_block(0, 0, 0, BlockState::new("minecraft:stone")).is_err());
    let bad = ChunkNbt::from_root(comp(vec![("sections", Nbt::List(vec![comp(vec![])]))]));
    assert_eq!(bad.get_block(0, 0, 0).unwrap_err(), "section missing Y");
}

#[test]
fn palette_tags_round_trip() {
    let s = BlockState::parse("minecraft:oak_log[axis=x]").unwrap();
    let t = state_to_tag(&s);
    assert_eq!(state_from_tag(&t).unwrap().to_compact(), "minecraft:oak_log[axis=x]");
    let tag = comp(vec![
        ("Name", Nbt::Text("minecraft:wheat".to_string())),
        ("Properties", comp(vec![("z", Nbt::Text("1".to_string())), ("age", Nbt::Int(3))])),
    ]);
    assert_eq!(state_from_tag(&tag).unwrap().to_compact(), "minecraft:wheat[age=3,z=1]");
    assert_eq!(state_from_tag(&comp(vec![])).unwrap_err(), "palette entry missing Name");
    assert_eq!(
        state_from_tag(&Nbt::Text("minecraft:stone".to_string())).unwrap().to_compact(),
        "minecraft:stone"
    );
    assert_eq!(state_from_tag(&Nbt::Int(1)).unwrap_err(), "bad palette entry");
}

#[test]
fn biomes_read_from_sections() {
    let sec = comp(vec![
        ("Y", Nbt::Int(4)),
        (
            "biomes",
            comp(vec![
                ("palette", Nbt::List(vec![Nbt::Text("plains".to_string()), Nbt::Text("minecraft:desert".to_string())])),
                // 64 cells at 1 bit each: cell 0 is desert, the rest plains
                ("data", Nbt::LongArray(vec![1])),
            ]),
        ),
    ]);
    let c = ChunkNbt::from_root(comp(vec![("sections", Nbt::List(vec![sec]))]));
    assert_eq!(c.get_biome(0, 64, 0).unwrap(), "minecraft:desert");
    assert_eq!(c.get_biome(4, 64, 0).unwrap(), "minecraft:plains");
    // a missing section reads as plains
    assert_eq!(c.get_biome(0, 0, 0).unwrap(), "minecraft:plains");
    let bad = ChunkNbt::from_root(comp(vec![(
        "sections",
        Nbt::List(vec![comp(vec![("Y", Nbt::Int(0)), ("biomes", comp(vec![("palette", Nbt::List(vec![Nbt::Int(1)]))]))])]),
    )]));
    assert_eq!(bad.get_biome(0, 0, 0).unwrap_err(), "biome palette entry not string");
    let none = ChunkNbt::from_root(comp(vec![("sections", Nbt::List(vec![comp(vec![("Y", Nbt::Int(0)), ("biomes", comp(vec![]))])]))]));
    assert_eq!(none.get_biome(0, 0, 0).unwrap_err(), "biomes missing palette");
}
