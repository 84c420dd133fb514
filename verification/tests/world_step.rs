use mcaedit_core::action::{Action, ActionPayload, BiomeChange, BlockChange, SpawnedEntity};
use mcaedit_core::blockstate::BlockState;
use mcaedit_core::chunk::SectionBiomes;
use mcaedit_core::edit_apply::SectionStore;
use mcaedit_core::palette::{SectionBlocks, SectionDiff};
use mcaedit_core::world_step::{apply_action, BiomeStore, EntityChunkState, WorldState};

fn st(s: &str) -> BlockState {
    BlockState::parse(s).unwrap()
}

fn world() -> WorldState {
    WorldState {
        blocks: SectionStore { keys: vec![(0, 0, 4)], sections: vec![SectionBlocks::air()] },
        biomes: BiomeStore { keys: vec![(0, 0, 4)], sections: vec![SectionBiomes::filled("minecraft:plains")] },
        entities: vec![EntityChunkState {
            chunk_x: 0,
            chunk_z: 0,
            entities: vec![(Some("old".to_string()), "{\"id\":\"minecraft:cow\"}".to_string())],
        }],
    }
}

fn act(payload: ActionPayload) -> Action {
    Action { id: 1, description: "step".to_string(), payload }
}

fn ents(w: &WorldState) -> Vec<(Option<String>, String)> {
    w.entities[0].entities.clone()
}

#[test]
fn blocks_redo_then_undo() {
    let mut w = world();
    let a = act(ActionPayload::SetBlocks {
        changes: vec![BlockChange { x: 1, y: 66, z: 3, before: BlockState::air(), after: st("minecraft:stone") }],
    });
    apply_action(&mut w, &a, &vec![], true);
    assert_eq!(w.blocks.sections[0].get(1, 2, 3).to_compact(), "minecraft:stone");
    apply_action(&mut w, &a, &vec![], false);
    assert_eq!(w.blocks.sections[0].get(1, 2, 3).to_compact(), "minecraft:air");
}

#[test]
fn biomes_redo_then_undo() {
    let mut w = world();
    let a = act(ActionPayload::SetBiomes {
        changes: vec![BiomeChange {
            x: 4,
            y: 64,
            z: 8,
            before: "minecraft:plains".to_string(),
            after: "minecraft:desert".to_string(),
        }],
    });
    apply_action(&mut w, &a, &vec![], true);
    assert_eq!(w.biomes.sections[0].get(1, 0, 2), "minecraft:desert");
    assert_eq!(w.biomes.sections[0].get(0, 0, 0), "minecraft:plains");
    apply_action(&mut w, &a, &vec![], false);
    assert_eq!(w.biomes.sections[0].get(1, 0, 2), "minecraft:plains");
}

#[test]
fn section_diff_redo_then_undo() {
    let mut w = world();
    let mut after = SectionDiff::new();
    after.set(2, 3, 4, st("minecraft:dirt"));
    let before = after.capture_before(&w.blocks.sections[0]);
    let a = act(ActionPayload::SetSection { cx: 0, cy: 4, cz: 0, before, after });
    apply_action(&mut w, &a, &vec![], true);
    assert_eq!(w.blocks.sections[0].get(2, 3, 4).to_compact(), "minecraft:dirt");
    apply_action(&mut w, &a, &vec![], false);
    assert_eq!(w.blocks.sections[0].get(2, 3, 4).to_compact(), "minecraft:air");
}

#[test]
fn entity_spawn_redo_then_undo() {
    let mut w = world();
    let a = act(ActionPayload::EntitySpawn { chunk_x: 0, chunk_z: 0, entity: "{\"id\":\"minecraft:pig\"}".to_string() });
    let ids = vec![Some("new".to_string())];
    apply_action(&mut w, &a, &ids, true);
    assert_eq!(ents(&w).len(), 2);
    assert_eq!(ents(&w)[1], (Some("new".to_string()), "{\"id\":\"minecraft:pig\"}".to_string()));
    apply_action(&mut w, &a, &ids, false);
    assert_eq!(ents(&w), ents(&world()));
}

#[test]
fn entity_without_uuid_matches_nothing() {
    let mut w = world();
    let a = act(ActionPayload::EntitySpawn { chunk_x: 0, chunk_z: 0, entity: "{}".to_string() });
    apply_action(&mut w, &a, &vec![None], false);
    assert_eq!(ents(&w), ents(&world()));
    let r = act(ActionPayload::EntityRemove { chunk_x: 0, chunk_z: 0, entity: "{}".to_string() });
    apply_action(&mut w, &r, &vec![None], true);
    assert_eq!(ents(&w), ents(&world()));
}

#[test]
fn undo_then_redo_restores() {
    let mut w = world();
    let blocks = act(ActionPayload::SetBlocks {
        changes: vec![BlockChange { x: 5, y: 64, z: 5, before: st("minecraft:stone"), after: BlockState::air() }],
    });
    apply_action(&mut w, &blocks, &vec![], false);
    assert_eq!(w.blocks.sections[0].get(5, 0, 5).to_compact(), "minecraft:stone");
    apply_action(&mut w, &blocks, &vec![], true);
    assert_eq!(w.blocks.sections[0].get(5, 0, 5).to_compact(), "minecraft:air");
    let spawn = act(ActionPayload::EntitySpawn { chunk_x: 0, chunk_z: 0, entity: "{\"id\":\"minecraft:cow\"}".to_string() });
    let ids = vec![Some("old".to_string())];
    apply_action(&mut w, &spawn, &ids, false);
    assert!(ents(&w).is_empty());
    apply_action(&mut w, &spawn, &ids, true);
    assert_eq!(ents(&w), ents(&world()));
}

#[test]
fn entity_set_redo_then_undo() {
    let mut w = world();
    let a = act(ActionPayload::EntitySet {
        chunk_x: 0,
        chunk_z: 0,
        uuid: "old".to_string(),
        before: "{\"id\":\"minecraft:cow\"}".to_string(),
        after: "{\"id\":\"minecraft:cow\",\"Age\":1}".to_string(),
    });
    let ids = vec![Some("old".to_string()), Some("old".to_string())];
    apply_action(&mut w, &a, &ids, true);
    assert_eq!(ents(&w)[0].1, "{\"id\":\"minecraft:cow\",\"Age\":1}");
    apply_action(&mut w, &a, &ids, false);
    assert_eq!(ents(&w), ents(&world()));
}

#[test]
fn entity_remove_redo_then_undo() {
    let mut w = world();
    let a = act(ActionPayload::EntityRemove { chunk_x: 0, chunk_z: 0, entity: "{\"id\":\"minecraft:cow\"}".to_string() });
    let ids = vec![Some("old".to_string())];
    apply_action(&mut w, &a, &ids, true);
    assert!(ents(&w).is_empty());
    apply_action(&mut w, &a, &ids, false);
    assert_eq!(ents(&w), ents(&world()));
    apply_action(&mut w, &a, &vec![None], true);
    assert_eq!(ents(&w), ents(&world()));
}

#[test]
fn paste_redo_then_undo() {
    let mut w = world();
    let a = act(ActionPayload::PasteTemplate {
        name: "hut".to_string(),
        origin: [0, 64, 0],
        changes: vec![BlockChange { x: 0, y: 64, z: 0, before: BlockState::air(), after: st("minecraft:oak_planks") }],
        spawned: vec![SpawnedEntity { chunk_x: 0, chunk_z: 0, entity: "{\"id\":\"minecraft:villager\"}".to_string() }],
    });
    let ids = vec![Some("v1".to_string())];
    apply_action(&mut w, &a, &ids, true);
    assert_eq!(w.blocks.sections[0].get(0, 0, 0).to_compact(), "minecraft:oak_planks");
    assert_eq!(ents(&w).len(), 2);
    apply_action(&mut w, &a, &ids, false);
    assert_eq!(w.blocks.sections[0].get(0, 0, 0).to_compact(), "minecraft:air");
    assert_eq!(ents(&w), ents(&world()));
}
