use mcaedit_core::action::{Action, ActionPayload, BiomeChange, BlockChange, SpawnedEntity};
use mcaedit_core::blockstate::BlockState;
use mcaedit_core::edit_apply::{apply_block_changes, SectionStore};
use mcaedit_core::palette::{SectionBlocks, SectionDiff};

fn st(s: &str) -> BlockState {
    BlockState::parse(s).unwrap()
}

fn change(x: i32, y: i32, z: i32, before: &str, after: &str) -> BlockChange {
    BlockChange { x, y, z, before: st(before), after: st(after) }
}

#[test]
fn apply_then_undo_restores_sections() {
    let mut store = SectionStore {
        keys: vec![(0, 0, 4), (-1, 0, 4)],
        sections: vec![SectionBlocks::air(), SectionBlocks::air()],
    };
    let changes = vec![
        change(1, 66, 3, "minecraft:air", "minecraft:stone"),
        change(-1, 64, 0, "minecraft:air", "minecraft:dirt"),
    ];
    apply_block_changes(&mut store, &changes, true);
    assert_eq!(store.sections[0].get(1, 2, 3).to_compact(), "minecraft:stone");
    assert_eq!(store.sections[1].get(15, 0, 0).to_compact(), "minecraft:dirt");
    assert_eq!(store.sections[0].get(0, 0, 0).to_compact(), "minecraft:air");
    apply_block_changes(&mut store, &changes, false);
    assert_eq!(store.sections[0].get(1, 2, 3).to_compact(), "minecraft:air");
    assert_eq!(store.sections[1].get(15, 0, 0).to_compact(), "minecraft:air");
    apply_block_changes(&mut store, &changes, true);
    assert_eq!(store.sections[1].get(15, 0, 0).to_compact(), "minecraft:dirt");
}

#[test]
fn action_changed_counts() {
    let stone = BlockState::parse("minecraft:stone").unwrap();
    let ch = BlockChange { x: 0, y: 0, z: 0, before: BlockState::air(), after: stone.clone() };
    let act = |p: ActionPayload| Action { id: 1, description: "d".to_string(), payload: p };
    assert_eq!(act(ActionPayload::SetBlocks { changes: vec![ch.clone(), ch.clone()] }).changed_count(), 2);
    let bc = BiomeChange { x: 0, y: 0, z: 0, before: "a".to_string(), after: "b".to_string() };
    assert_eq!(act(ActionPayload::SetBiomes { changes: vec![bc] }).changed_count(), 1);
    let mut after = SectionDiff::new();
    after.set(0, 0, 0, stone.clone());
    after.set(1, 0, 0, BlockState::parse("minecraft:void_air").unwrap());
    after.set(2, 0, 0, BlockState::air());
    let sec = ActionPayload::SetSection { cx: 0, cy: 0, cz: 0, before: SectionDiff::new(), after };
    assert_eq!(act(sec).changed_count(), 2);
    assert_eq!(
        act(ActionPayload::EntityRemove { chunk_x: 0, chunk_z: 0, entity: "{}".to_string() }).changed_count(),
        1
    );
    let sp = SpawnedEntity { chunk_x: 0, chunk_z: 0, entity: "{}".to_string() };
    let paste = ActionPayload::PasteTemplate {
        name: "t".to_string(),
        origin: [0, 0, 0],
        changes: vec![ch.clone(), ch.clone(), ch],
        spawned: vec![sp],
    };
    assert_eq!(act(paste).changed_count(), 4);
}

#[test]
fn section_diff_apply_then_captured_undo() {
    let mut sec = SectionBlocks::air();
    sec.set(1, 1, 1, st("minecraft:dirt"));
    let mut d = SectionDiff::new();
    d.set(1, 1, 1, st("minecraft:stone"));
    d.set(0, 0, 0, st("minecraft:stone"));
    d.set(2, 0, 0, BlockState::void_air());
    d.set(0, 0, 0, st("minecraft:glass"));
    let keys: Vec<String> = d.entries().iter().map(|e| e.0.clone()).collect();
    assert_eq!(keys, vec!["0,0,0", "1,1,1", "2,0,0"]);
    let before = d.capture_before(&sec);
    assert_eq!(d.apply_to(&mut sec), 2);
    assert_eq!(sec.get(0, 0, 0).to_compact(), "minecraft:glass");
    assert_eq!(sec.get(1, 1, 1).to_compact(), "minecraft:stone");
    assert_eq!(sec.get(2, 0, 0).to_compact(), "minecraft:air");
    assert_eq!(before.apply_to(&mut sec), 2);
    assert_eq!(sec.get(0, 0, 0).to_compact(), "minecraft:air");
    assert_eq!(sec.get(1, 1, 1).to_compact(), "minecraft:dirt");
    assert_eq!(d.clone().entries().len(), 3);
}
