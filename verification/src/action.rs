//! Recorded edits: one block or biome cell, before and after.

use vstd::prelude::*;
use crate::blockstate::{is_empty_sentinel_view, BlockState, BlockStateView};
use crate::palette::{diff_view, SectionDiff};

verus! {

#[derive(Clone, Debug)]
pub struct BlockChange {
    pub x: i32,
    pub y: i32,
    pub z: i32,
    pub before: BlockState,
    pub after: BlockState,
}

#[derive(Clone, Debug)]
pub struct BiomeChange {
    /// World coords of biome cell origin (aligned to 4).
    pub x: i32,
    pub y: i32,
    pub z: i32,
    pub before: String,
    pub after: String,
}

/// An entity a paste spawned: its chunk and its NBT as JSON text.
#[derive(Clone, Debug)]
pub struct SpawnedEntity {
    pub chunk_x: i32,
    pub chunk_z: i32,
    pub entity: String,
}

/// What one history entry did. Entity NBT is held as JSON text.
#[derive(Clone, Debug)]
pub enum ActionPayload {
    SetBlocks { changes: Vec<BlockChange> },
    SetBiomes { changes: Vec<BiomeChange> },
    SetSection { cx: i32, cy: i32, cz: i32, before: SectionDiff, after: SectionDiff },
    EntitySpawn { chunk_x: i32, chunk_z: i32, entity: String },
    EntitySet { chunk_x: i32, chunk_z: i32, uuid: String, before: String, after: String },
    EntityRemove { chunk_x: i32, chunk_z: i32, entity: String },
    PasteTemplate {
        name: String,
        origin: [i32; 3],
        changes: Vec<BlockChange>,
        spawned: Vec<SpawnedEntity>,
    },
}

/// One history entry.
#[derive(Clone, Debug)]
pub struct Action {
    pub id: u64,
    pub description: String,
    pub payload: ActionPayload,
}

/// How many cells of a section diff set a block (void_air marks "keep").
pub open spec fn set_cells(c: Seq<(Seq<char>, BlockStateView)>) -> nat
    decreases c.len(),
{
    if c.len() == 0 {
        0
    } else {
        set_cells(c.drop_last()) + if is_empty_sentinel_view(c.last().1) {
            0nat
        } else {
            1nat
        }
    }
}

/// How many things an action changed: its block or biome changes, the
/// cells its section diff sets, one entity, or a paste's blocks and
/// spawned entities together.
pub open spec fn changed_count_spec(p: ActionPayload) -> nat {
    match p {
        ActionPayload::SetBlocks { changes } => changes@.len(),
        ActionPayload::SetBiomes { changes } => changes@.len(),
        ActionPayload::SetSection { after, .. } => set_cells(after@),
        ActionPayload::EntitySpawn { .. } => 1,
        ActionPayload::EntitySet { .. } => 1,
        ActionPayload::EntityRemove { .. } => 1,
        ActionPayload::PasteTemplate { changes, spawned, .. } => changes@.len() + spawned@.len(),
    }
}

impl Action {
    /// How many things this action changed (see `changed_count_spec`).
    pub fn changed_count(&self) -> (r: usize)
        requires
            self.payload matches ActionPayload::PasteTemplate { changes, spawned, .. } ==> changes@.len()
                + spawned@.len() <= usize::MAX,
        ensures
            r == changed_count_spec(self.payload),
    {
        match &self.payload {
            ActionPayload::SetBlocks { changes } => changes.len(),
            ActionPayload::SetBiomes { changes } => changes.len(),
            ActionPayload::SetSection { after, .. } => {
                let cells = after.entries();
                let ghost dv = after@;
                let mut n: usize = 0;
                let mut i: usize = 0;
                assert(dv.take(0) =~= Seq::<(Seq<char>, BlockStateView)>::empty());
                while i < cells.len()
                    invariant
                        i <= cells@.len(),
                        dv == diff_view(cells@),
                        n == set_cells(dv.take(i as int)),
                        n <= i,
                    decreases cells.len() - i,
                {
                    assert(dv.take(i + 1).drop_last() =~= dv.take(i as int));
                    assert(dv.take(i + 1).last() == (cells@[i as int].0@, cells@[i as int].1@));
                    if !cells[i].1.is_empty_sentinel() {
                        n += 1;
                    }
                    i += 1;
                }
                assert(dv.take(cells@.len() as int) =~= dv);
                n
            },
            ActionPayload::EntitySpawn { .. } => 1,
            ActionPayload::EntitySet { .. } => 1,
            ActionPayload::EntityRemove { .. } => 1,
            ActionPayload::PasteTemplate { changes, spawned, .. } => changes.len() + spawned.len(),
        }
    }
}

} // verus!
