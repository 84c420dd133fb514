//! One step of the edit history over the loaded parts of a world: the
//! block sections, the biome sections and the entity lists a recorded
//! action touches, applied forward (redo) or backward (undo).

use vstd::prelude::*;
use crate::action::{Action, ActionPayload, BiomeChange, SpawnedEntity};
use crate::blockstate::{is_empty_sentinel_view, BlockStateView};
use crate::edit_apply::{
    applied, apply_block_changes, palettes_have_room, writes, SectionStore, StoreView,
};
use crate::palette::{
    apply_cells, captured, distinct_cells, key_index_spec, law_capture_then_apply_undoes,
};
use crate::chunk::{biome_local, local_in_chunk, normalize_biome, SectionBiomes};
use crate::edit_apply::{law_undo_after_apply_restores, local_index, section_key};
use crate::text::{chars_of, copy_string, eq_chars};

verus! {

/// Each key with the biome cells of its section.
pub type BiomeView = Seq<((i32, i32, i8), Seq<Seq<char>>)>;

/// The biome sections an edit reads and writes, each under its key
/// (chunk x, chunk z, section y).
pub struct BiomeStore {
    pub keys: Vec<(i32, i32, i8)>,
    pub sections: Vec<SectionBiomes>,
}

impl BiomeStore {
    pub open spec fn view_cells(&self) -> BiomeView {
        Seq::new(self.keys@.len(), |i: int| (self.keys@[i], self.sections@[i].cells()))
    }

    /// One section per key, keys distinct, sections well formed.
    pub open spec fn wf(&self) -> bool {
        &&& self.keys@.len() == self.sections@.len()
        &&& forall|a: int, b: int| 0 <= a < b < self.keys@.len() ==> self.keys@[a] != self.keys@[b]
        &&& forall|i: int| 0 <= i < self.sections@.len() ==> (#[trigger] self.sections@[i]).wf()
    }
}

/// A biome cell's position inside its section.
pub open spec fn biome_cell(x: i32, y: i32, z: i32) -> int {
    ((y % 16) / 4) * 16 + ((z % 16) / 4) * 4 + (x % 16) / 4
}

/// The biome a change writes: its new biome forward, its old one backward,
/// normalized.
pub open spec fn biome_value(c: BiomeChange, forward: bool) -> Seq<char> {
    normalize_biome(if forward { c.after@ } else { c.before@ })
}

/// The cells after setting `b` at cell `i` of the section under `k`.
pub open spec fn bset_in(v: BiomeView, k: (i32, i32, i8), i: int, b: Seq<char>) -> BiomeView {
    Seq::new(v.len(), |j: int| if v[j].0 == k { (k, v[j].1.update(i, b)) } else { v[j] })
}

/// The biome cells after the first `n` changes, in order.
pub open spec fn bapplied(v: BiomeView, cs: Seq<BiomeChange>, forward: bool, n: nat) -> BiomeView
    decreases n,
{
    if n == 0 {
        v
    } else {
        let c = cs[n - 1];
        bset_in(
            bapplied(v, cs, forward, (n - 1) as nat),
            section_key(c.x, c.y, c.z),
            biome_cell(c.x, c.y, c.z),
            biome_value(c, forward),
        )
    }
}

/// Room in every biome palette for one new entry per change.
pub open spec fn biome_room(s: &BiomeStore, n: nat) -> bool {
    forall|i: int| 0 <= i < s.sections@.len() ==> (#[trigger] s.sections@[i]).palette@.len() + n < 65536
}

fn find_biome_key(keys: &Vec<(i32, i32, i8)>, k: (i32, i32, i8)) -> (r: Option<usize>)
    ensures
        match r {
            Some(i) => i < keys@.len() && keys@[i as int] == k,
            None => !keys@.contains(k),
        },
{
    let mut i: usize = 0;
    while i < keys.len()
        invariant
            i <= keys@.len(),
            forall|j: int| 0 <= j < i ==> keys@[j] != k,
        decreases keys.len() - i,
    {
        if keys[i].0 == k.0 && keys[i].1 == k.1 && keys[i].2 == k.2 {
            return Some(i);
        }
        i += 1;
    }
    None
}

/// Set the biome changes in order: each change's new biome when `forward`
/// (redo), its old one otherwise (undo). Every change's section must be in
/// the store.
pub fn apply_biome_changes(store: &mut BiomeStore, changes: &Vec<BiomeChange>, forward: bool)
    requires
        old(store).wf(),
        biome_room(old(store), changes@.len()),
        forall|i: int|
            0 <= i < changes@.len() ==> old(store).keys@.contains(
                section_key(changes@[i].x, changes@[i].y, changes@[i].z),
            ),
    ensures
        final(store).wf(),
        final(store).keys@ == old(store).keys@,
        final(store).view_cells() == bapplied(old(store).view_cells(), changes@, forward, changes@.len()),
        forall|i: int|
            0 <= i < final(store).sections@.len() ==> (#[trigger] final(store).sections@[i]).palette@.len()
                <= old(store).sections@[i].palette@.len() + changes@.len(),
{
    let ghost v0 = store.view_cells();
    let mut n: usize = 0;
    while n < changes.len()
        invariant
            n <= changes@.len(),
            store.wf(),
            store.keys@ == old(store).keys@,
            store.sections@.len() == old(store).sections@.len(),
            v0 == old(store).view_cells(),
            biome_room(old(store), changes@.len()),
            forall|i: int| 0 <= i < store.sections@.len() ==> (#[trigger] store.sections@[i]).palette@.len()
                <= old(store).sections@[i].palette@.len() + n,
            forall|i: int|
                0 <= i < changes@.len() ==> old(store).keys@.contains(
                    section_key(changes@[i].x, changes@[i].y, changes@[i].z),
                ),
            store.view_cells() == bapplied(v0, changes@, forward, n as nat),
        decreases changes.len() - n,
    {
        let c = &changes[n];
        let (_, _, _, sy) = local_in_chunk(c.x, c.y, c.z);
        let (bx, by, bz) = biome_local(c.x, c.y, c.z);
        let key: (i32, i32, i8) = (c.x >> 4u32, c.z >> 4u32, sy);
        assert(key == section_key(c.x, c.y, c.z));
        let cell = SectionBiomes::index(bx, by, bz);
        assert(cell as int == biome_cell(c.x, c.y, c.z));
        match find_biome_key(&store.keys, key) {
            None => {
                assert(old(store).keys@.contains(section_key(changes@[n as int].x, changes@[n as int].y, changes@[n as int].z)));
                assert(false);
            },
            Some(idx) => {
                let ghost before = store.view_cells();
                let ghost secs = store.sections@;
                let mut sec = store.sections.remove(idx);
                assert(sec == secs[idx as int]);
                let b = if forward {
                    c.after.as_str()
                } else {
                    c.before.as_str()
                };
                sec.set(bx, by, bz, b);
                store.sections.insert(idx, sec);
                proof {
                    assert(store.sections@ =~= secs.update(idx as int, sec));
                    assert forall|a: int, bb: int| 0 <= a < bb < store.keys@.len() implies store.keys@[a]
                        != store.keys@[bb] by {}
                    assert(store.view_cells() =~= bset_in(
                        before,
                        section_key(c.x, c.y, c.z),
                        biome_cell(c.x, c.y, c.z),
                        biome_value(*c, forward),
                    ));
                }
            },
        }
        n += 1;
    }
}

/// The biome the last of the first `n` changes wrote at cell `i` of the
/// section under `k`, if any did.
pub open spec fn last_bwrite(cs: Seq<BiomeChange>, forward: bool, n: nat, k: (i32, i32, i8), i: int) -> Option<
    Seq<char>,
>
    decreases n,
{
    if n == 0 {
        None
    } else {
        let c = cs[n - 1];
        if section_key(c.x, c.y, c.z) == k && biome_cell(c.x, c.y, c.z) == i {
            Some(biome_value(c, forward))
        } else {
            last_bwrite(cs, forward, (n - 1) as nat, k, i)
        }
    }
}

proof fn lemma_bapplied_cells(v: BiomeView, cs: Seq<BiomeChange>, forward: bool, n: nat)
    requires
        n <= cs.len(),
        forall|j: int| 0 <= j < v.len() ==> (#[trigger] v[j]).1.len() == 64,
    ensures
        bapplied(v, cs, forward, n).len() == v.len(),
        forall|j: int|
            0 <= j < v.len() ==> {
                &&& (#[trigger] bapplied(v, cs, forward, n)[j]).0 == v[j].0
                &&& bapplied(v, cs, forward, n)[j].1.len() == 64
                &&& forall|i: int|
                    0 <= i < 64 ==> bapplied(v, cs, forward, n)[j].1[i] == match last_bwrite(
                        cs,
                        forward,
                        n,
                        v[j].0,
                        i,
                    ) {
                        Some(b) => b,
                        None => v[j].1[i],
                    }
            },
    decreases n,
{
    if n > 0 {
        lemma_bapplied_cells(v, cs, forward, (n - 1) as nat);
        let prev = bapplied(v, cs, forward, (n - 1) as nat);
        let c = cs[n - 1];
        let k = section_key(c.x, c.y, c.z);
        let li = biome_cell(c.x, c.y, c.z);
        let cur = bapplied(v, cs, forward, n);
        assert forall|j: int| 0 <= j < v.len() implies {
            &&& (#[trigger] cur[j]).0 == v[j].0
            &&& cur[j].1.len() == 64
            &&& forall|i: int|
                0 <= i < 64 ==> cur[j].1[i] == match last_bwrite(cs, forward, n, v[j].0, i) {
                    Some(b) => b,
                    None => v[j].1[i],
                }
        } by {
            assert(prev[j].0 == v[j].0);
            if prev[j].0 == k {
                assert forall|i: int| 0 <= i < 64 implies cur[j].1[i] == match last_bwrite(
                    cs,
                    forward,
                    n,
                    v[j].0,
                    i,
                ) {
                    Some(b) => b,
                    None => v[j].1[i],
                } by {
                    if i != li {
                        assert(cur[j].1[i] == prev[j].1[i]);
                    }
                }
            }
        }
    }
}

/// Distinct cells: no two changes name the same cell of the same section.
pub open spec fn distinct_biome_cells(cs: Seq<BiomeChange>) -> bool {
    forall|a: int, b: int|
        0 <= a < b < cs.len() ==> !(section_key(cs[a].x, cs[a].y, cs[a].z) == section_key(
            cs[b].x,
            cs[b].y,
            cs[b].z,
        ) && biome_cell(cs[a].x, cs[a].y, cs[a].z) == biome_cell(cs[b].x, cs[b].y, cs[b].z))
}

proof fn lemma_last_bwrite(cs: Seq<BiomeChange>, forward: bool, n: nat, k: (i32, i32, i8), i: int)
    requires
        n <= cs.len(),
        distinct_biome_cells(cs),
    ensures
        last_bwrite(cs, forward, n, k, i) is None <==> forall|a: int|
            0 <= a < n ==> !(section_key(cs[a].x, cs[a].y, cs[a].z) == k && biome_cell(
                cs[a].x,
                cs[a].y,
                cs[a].z,
            ) == i),
        forall|a: int|
            0 <= a < n && section_key(cs[a].x, cs[a].y, cs[a].z) == k && biome_cell(cs[a].x, cs[a].y, cs[a].z)
                == i ==> last_bwrite(cs, forward, n, k, i) == Some(biome_value(cs[a], forward)),
    decreases n,
{
    if n > 0 {
        lemma_last_bwrite(cs, forward, (n - 1) as nat, k, i);
    }
}

/// Setting biome changes one way and then the other restores the cells,
/// when the changes name distinct cells and each cell held the biome the
/// second pass writes.
pub proof fn law_biome_changes_reverse(s: BiomeStore, cs: Seq<BiomeChange>, first: bool)
    requires
        s.wf(),
        distinct_biome_cells(cs),
        forall|a: int, j: int|
            0 <= a < cs.len() && 0 <= j < s.keys@.len() && s.keys@[j] == section_key(
                cs[a].x,
                cs[a].y,
                cs[a].z,
            ) ==> s.sections@[j].cells()[biome_cell(cs[a].x, cs[a].y, cs[a].z)] == biome_value(cs[a], !first),
    ensures
        bapplied(bapplied(s.view_cells(), cs, first, cs.len()), cs, !first, cs.len()) == s.view_cells(),
{
    let v = s.view_cells();
    let n = cs.len();
    assert forall|j: int| 0 <= j < v.len() implies (#[trigger] v[j]).1.len() == 64 by {
        assert(s.sections@[j].wf());
    }
    let f = bapplied(v, cs, first, n);
    let g = bapplied(f, cs, !first, n);
    lemma_bapplied_cells(v, cs, first, n);
    assert forall|j: int| 0 <= j < f.len() implies (#[trigger] f[j]).1.len() == 64 by {
        assert(f[j].1.len() == 64);
    }
    lemma_bapplied_cells(f, cs, !first, n);
    assert forall|j: int| 0 <= j < v.len() implies #[trigger] g[j] == v[j] by {
        let k = v[j].0;
        assert forall|i: int| 0 <= i < 64 implies g[j].1[i] == v[j].1[i] by {
            lemma_last_bwrite(cs, first, n, k, i);
            lemma_last_bwrite(cs, !first, n, k, i);
            if last_bwrite(cs, !first, n, k, i) is Some {
                let a = choose|a: int|
                    0 <= a < n && section_key(cs[a].x, cs[a].y, cs[a].z) == k && biome_cell(
                        cs[a].x,
                        cs[a].y,
                        cs[a].z,
                    ) == i;
                assert(s.keys@[j] == k);
            }
        }
        assert(g[j].1 =~= v[j].1);
    }
    assert(g =~= v);
}

/// The entities of one chunk: each with the UUID it was read with (none
/// when it has none that reads) and its NBT as JSON text.
pub type EntityList = Seq<(Option<Seq<char>>, Seq<char>)>;

/// Each loaded entity chunk with its list.
pub type EntityView = Seq<((i32, i32), EntityList)>;

/// The entities of one chunk, as loaded.
pub struct EntityChunkState {
    pub chunk_x: i32,
    pub chunk_z: i32,
    pub entities: Vec<(Option<String>, String)>,
}

pub open spec fn opt_text(o: Option<String>) -> Option<Seq<char>> {
    match o {
        Some(s) => Some(s@),
        None => None,
    }
}

pub open spec fn entity_view(e: (Option<String>, String)) -> (Option<Seq<char>>, Seq<char>) {
    (opt_text(e.0), e.1@)
}

pub open spec fn list_view(l: Seq<(Option<String>, String)>) -> EntityList {
    l.map_values(|e: (Option<String>, String)| entity_view(e))
}

pub open spec fn entities_view(cs: Seq<EntityChunkState>) -> EntityView {
    Seq::new(cs.len(), |i: int| ((cs[i].chunk_x, cs[i].chunk_z), list_view(cs[i].entities@)))
}

/// One list per chunk.
pub open spec fn entities_wf(cs: Seq<EntityChunkState>) -> bool {
    forall|a: int, b: int|
        0 <= a < b < cs.len() ==> (cs[a].chunk_x, cs[a].chunk_z) != (cs[b].chunk_x, cs[b].chunk_z)
}

/// Position of chunk `c`'s list, -1 when it is not loaded.
pub open spec fn chunk_pos(v: EntityView, c: (i32, i32)) -> int {
    if exists|j: int| 0 <= j < v.len() && v[j].0 == c {
        choose|j: int| 0 <= j < v.len() && v[j].0 == c
    } else {
        -1
    }
}

/// Chunk `c`'s list (empty when it is not loaded).
pub open spec fn list_of(v: EntityView, c: (i32, i32)) -> EntityList {
    let j = chunk_pos(v, c);
    if j >= 0 {
        v[j].1
    } else {
        seq![]
    }
}

/// `v` with chunk `c`'s list replaced by `l`.
pub open spec fn with_list(v: EntityView, c: (i32, i32), l: EntityList) -> EntityView {
    let j = chunk_pos(v, c);
    if j >= 0 {
        v.update(j, (c, l))
    } else {
        v
    }
}

/// A list without the entities of UUID `u` (entities without one stay).
pub open spec fn without_uuid(l: EntityList, u: Seq<char>) -> EntityList
    decreases l.len(),
{
    if l.len() == 0 {
        l
    } else {
        let p = without_uuid(l.drop_last(), u);
        if l.last().0 == Some(u) {
            p
        } else {
            p.push(l.last())
        }
    }
}

/// Whether some entity of `l` has UUID `u`.
pub open spec fn has_uuid(l: EntityList, u: Seq<char>) -> bool {
    exists|i: int| 0 <= i < l.len() && l[i].0 == Some(u)
}

/// Position of the first entity of UUID `u`, -1 when there is none.
pub open spec fn first_uuid(l: EntityList, u: Seq<char>) -> int {
    if has_uuid(l, u) {
        choose|i: int| 0 <= i < l.len() && l[i].0 == Some(u) && forall|m: int| 0 <= m < i ==> (#[trigger] l[m]).0 != Some(u)
    } else {
        -1
    }
}

/// `l` with its first entity of UUID `u` replaced by `e` (unchanged when
/// there is none).
pub open spec fn set_first(l: EntityList, u: Seq<char>, e: (Option<Seq<char>>, Seq<char>)) -> EntityList {
    let j = first_uuid(l, u);
    if j >= 0 {
        l.update(j, e)
    } else {
        l
    }
}

/// A list without the entities of UUID `o`; an entity text with no UUID
/// (`None`) matches none.
pub open spec fn drop_id(l: EntityList, o: Option<Seq<char>>) -> EntityList {
    match o {
        Some(u) => without_uuid(l, u),
        None => l,
    }
}

proof fn lemma_chunk_pos(cs: Seq<EntityChunkState>, c: (i32, i32), j: int)
    requires
        entities_wf(cs),
        0 <= j < cs.len(),
        (cs[j].chunk_x, cs[j].chunk_z) == c,
    ensures
        chunk_pos(entities_view(cs), c) == j,
{
    let v = entities_view(cs);
    assert(v[j].0 == c);
    let k = choose|k: int| 0 <= k < v.len() && v[k].0 == c;
    if k != j {
        if k < j {
            assert((cs[k].chunk_x, cs[k].chunk_z) != (cs[j].chunk_x, cs[j].chunk_z));
        } else {
            assert((cs[j].chunk_x, cs[j].chunk_z) != (cs[k].chunk_x, cs[k].chunk_z));
        }
    }
}

fn find_chunk(cs: &Vec<EntityChunkState>, c: (i32, i32)) -> (r: Option<usize>)
    requires
        entities_wf(cs@),
    ensures
        match r {
            Some(j) => j < cs@.len() && chunk_pos(entities_view(cs@), c) == j as int,
            None => chunk_pos(entities_view(cs@), c) == -1,
        },
{
    let mut i: usize = 0;
    while i < cs.len()
        invariant
            i <= cs@.len(),
            entities_wf(cs@),
            forall|m: int| 0 <= m < i ==> (cs@[m].chunk_x, cs@[m].chunk_z) != c,
        decreases cs.len() - i,
    {
        if cs[i].chunk_x == c.0 && cs[i].chunk_z == c.1 {
            proof {
                lemma_chunk_pos(cs@, c, i as int);
            }
            return Some(i);
        }
        i += 1;
    }
    proof {
        let v = entities_view(cs@);
        assert(!exists|j: int| 0 <= j < v.len() && v[j].0 == c);
    }
    None
}

fn same_uuid(o: &Option<String>, u: &String) -> (r: bool)
    ensures
        r == (opt_text(*o) == Some(u@)),
{
    match o {
        Some(s) => eq_chars(&chars_of(s.as_str()), &chars_of(u.as_str())),
        None => false,
    }
}

fn copy_entity(e: &(Option<String>, String)) -> (r: (Option<String>, String))
    ensures
        entity_view(r) == entity_view(*e),
{
    let id = match &e.0 {
        Some(s) => Some(copy_string(s)),
        None => None,
    };
    (id, copy_string(&e.1))
}

/// The list without the entities of UUID `u`.
fn drop_uuid(l: &Vec<(Option<String>, String)>, u: &String) -> (r: Vec<(Option<String>, String)>)
    ensures
        list_view(r@) == without_uuid(list_view(l@), u@),
{
    let ghost lv = list_view(l@);
    let mut out: Vec<(Option<String>, String)> = Vec::new();
    let mut i: usize = 0;
    assert(lv.take(0) =~= Seq::<(Option<Seq<char>>, Seq<char>)>::empty());
    assert(list_view(out@) =~= without_uuid(lv.take(0), u@));
    while i < l.len()
        invariant
            i <= l@.len(),
            lv == list_view(l@),
            list_view(out@) == without_uuid(lv.take(i as int), u@),
        decreases l.len() - i,
    {
        assert(lv.take(i + 1).drop_last() =~= lv.take(i as int));
        assert(lv.take(i + 1).last() == entity_view(l@[i as int]));
        if !same_uuid(&l[i].0, u) {
            let ghost before = list_view(out@);
            out.push(copy_entity(&l[i]));
            assert(list_view(out@) =~= before.push(entity_view(l@[i as int])));
        }
        i += 1;
    }
    assert(lv.take(l@.len() as int) =~= lv);
    out
}

/// The list with its first entity of UUID `u` replaced by `e`.
fn set_first_uuid(l: &mut Vec<(Option<String>, String)>, u: &String, e: (Option<String>, String))
    ensures
        list_view(final(l)@) == set_first(list_view(old(l)@), u@, entity_view(e)),
{
    let ghost lv = list_view(l@);
    let mut i: usize = 0;
    while i < l.len()
        invariant
            i <= l@.len(),
            lv == list_view(old(l)@),
            l@ == old(l)@,
            forall|m: int| 0 <= m < i ==> (#[trigger] lv[m]).0 != Some(u@),
        decreases l.len() - i,
    {
        assert(lv[i as int] == entity_view(l@[i as int]));
        if same_uuid(&l[i].0, u) {
            let ghost ev = entity_view(e);
            proof {
                assert(has_uuid(lv, u@));
                let j = first_uuid(lv, u@);
                assert(0 <= j < lv.len() && lv[j].0 == Some(u@) && forall|m: int| 0 <= m < j ==> (#[trigger] lv[m]).0 != Some(u@));
                if j < i {
                    assert(lv[j].0 != Some(u@));
                }
                if j > i {
                    assert(lv[i as int].0 != Some(u@));
                }
            }
            l.set(i, e);
            assert(list_view(l@) =~= lv.update(i as int, ev));
            return;
        }
        i += 1;
    }
    proof {
        if has_uuid(lv, u@) {
            let k = choose|k: int| 0 <= k < lv.len() && lv[k].0 == Some(u@);
            assert(lv[k].0 != Some(u@));
        }
    }
}

/// Applies `f` to chunk `c`'s list, in place.
fn with_chunk_list(
    cs: &mut Vec<EntityChunkState>,
    j: usize,
    l: Vec<(Option<String>, String)>,
)
    requires
        j < old(cs)@.len(),
        entities_wf(old(cs)@),
    ensures
        entities_wf(final(cs)@),
        entities_view(final(cs)@) == entities_view(old(cs)@).update(
            j as int,
            ((old(cs)@[j as int].chunk_x, old(cs)@[j as int].chunk_z), list_view(l@)),
        ),
{
    let cx = cs[j].chunk_x;
    let cz = cs[j].chunk_z;
    let ghost before = cs@;
    cs.set(j, EntityChunkState { chunk_x: cx, chunk_z: cz, entities: l });
    assert(entities_view(cs@) =~= entities_view(before).update(j as int, ((cx, cz), list_view(l@))));
    assert(forall|a: int| 0 <= a < cs@.len() ==> (cs@[a].chunk_x, cs@[a].chunk_z) == (before[a].chunk_x, before[a].chunk_z));
}

/// The loaded parts of a world an action touches.
pub struct WorldState {
    pub blocks: SectionStore,
    pub biomes: BiomeStore,
    pub entities: Vec<EntityChunkState>,
}

/// The cells and entity lists of the loaded parts.
pub struct WorldView {
    pub blocks: StoreView,
    pub biomes: BiomeView,
    pub entities: EntityView,
}

impl WorldState {
    pub open spec fn view_of(&self) -> WorldView {
        WorldView {
            blocks: self.blocks.view_cells(),
            biomes: self.biomes.view_cells(),
            entities: entities_view(self.entities@),
        }
    }

    pub open spec fn wf(&self) -> bool {
        &&& self.blocks.wf()
        &&& self.biomes.wf()
        &&& entities_wf(self.entities@)
    }
}

pub open spec fn ids_view(ids: Seq<Option<String>>) -> Seq<Option<Seq<char>>> {
    ids.map_values(|o: Option<String>| opt_text(o))
}

/// The section under `k` with a diff applied.
pub open spec fn section_apply(v: StoreView, k: (i32, i32, i8), d: Seq<(Seq<char>, BlockStateView)>) -> StoreView {
    Seq::new(v.len(), |j: int| if v[j].0 == k { (k, apply_cells(v[j].1, d).0) } else { v[j] })
}

/// The entity lists after spawning the first `n` entities of a paste.
pub open spec fn spawn_all(v: EntityView, sp: Seq<SpawnedEntity>, ids: Seq<Option<Seq<char>>>, n: nat) -> EntityView
    decreases n,
{
    if n == 0 {
        v
    } else {
        let e = sp[n - 1];
        let c = (e.chunk_x, e.chunk_z);
        let p = spawn_all(v, sp, ids, (n - 1) as nat);
        with_list(p, c, list_of(p, c).push((ids[n - 1], e.entity@)))
    }
}

/// The entity lists after removing the first `n` entities of a paste by
/// their UUIDs.
pub open spec fn remove_all(v: EntityView, sp: Seq<SpawnedEntity>, ids: Seq<Option<Seq<char>>>, n: nat) -> EntityView
    decreases n,
{
    if n == 0 {
        v
    } else {
        let e = sp[n - 1];
        let c = (e.chunk_x, e.chunk_z);
        let p = remove_all(v, sp, ids, (n - 1) as nat);
        with_list(p, c, drop_id(list_of(p, c), ids[n - 1]))
    }
}

/// How many UUIDs an action's entity texts need: the spawned or removed
/// entity's, an entity set's old then new text's, each pasted entity's.
pub open spec fn ids_needed(p: ActionPayload) -> nat {
    match p {
        ActionPayload::EntitySpawn { .. } => 1,
        ActionPayload::EntitySet { .. } => 2,
        ActionPayload::EntityRemove { .. } => 1,
        ActionPayload::PasteTemplate { spawned, .. } => spawned@.len(),
        _ => 0,
    }
}

/// What an action does to the loaded parts, forward (redo) or backward
/// (undo). Entities are told apart by the UUIDs `ids` gives for the
/// action's entity texts.
pub open spec fn step(w: WorldView, p: ActionPayload, ids: Seq<Option<Seq<char>>>, forward: bool) -> WorldView {
    match p {
        ActionPayload::SetBlocks { changes } => WorldView {
            blocks: applied(w.blocks, writes(changes@, forward), changes@.len()),
            ..w
        },
        ActionPayload::SetBiomes { changes } => WorldView {
            biomes: bapplied(w.biomes, changes@, forward, changes@.len()),
            ..w
        },
        ActionPayload::SetSection { cx, cy, cz, before, after } => WorldView {
            blocks: section_apply(w.blocks, (cx, cz, cy as i8), if forward { after@ } else { before@ }),
            ..w
        },
        ActionPayload::EntitySpawn { chunk_x, chunk_z, entity } => {
            let c = (chunk_x, chunk_z);
            WorldView {
                entities: if forward {
                    with_list(w.entities, c, list_of(w.entities, c).push((ids[0], entity@)))
                } else {
                    with_list(w.entities, c, drop_id(list_of(w.entities, c), ids[0]))
                },
                ..w
            }
        },
        ActionPayload::EntitySet { chunk_x, chunk_z, uuid, before, after } => {
            let c = (chunk_x, chunk_z);
            WorldView {
                entities: with_list(
                    w.entities,
                    c,
                    set_first(
                        list_of(w.entities, c),
                        uuid@,
                        if forward { (ids[1], after@) } else { (ids[0], before@) },
                    ),
                ),
                ..w
            }
        },
        ActionPayload::EntityRemove { chunk_x, chunk_z, entity } => {
            let c = (chunk_x, chunk_z);
            WorldView {
                entities: if forward {
                    with_list(w.entities, c, drop_id(list_of(w.entities, c), ids[0]))
                } else {
                    with_list(w.entities, c, list_of(w.entities, c).push((ids[0], entity@)))
                },
                ..w
            }
        },
        ActionPayload::PasteTemplate { changes, spawned, .. } => if forward {
            WorldView {
                blocks: applied(w.blocks, writes(changes@, true), changes@.len()),
                biomes: w.biomes,
                entities: spawn_all(w.entities, spawned@, ids, spawned@.len()),
            }
        } else {
            WorldView {
                blocks: applied(w.blocks, writes(changes@, false), changes@.len()),
                biomes: w.biomes,
                entities: remove_all(w.entities, spawned@, ids, spawned@.len()),
            }
        },
    }
}

/// Whether the chunk of entity chunk `c` is loaded.
pub open spec fn chunk_loaded(s: &WorldState, c: (i32, i32)) -> bool {
    chunk_pos(entities_view(s.entities@), c) >= 0
}

/// The section under `k` is loaded, the diff names cells of a section, and
/// its palette has room for one entry per cell the diff changes.
pub open spec fn section_ready(s: &WorldState, k: (i32, i32, i8), d: Seq<(Seq<char>, BlockStateView)>) -> bool {
    &&& s.blocks.has_key(k)
    &&& forall|j: int| 0 <= j < d.len() ==> key_index_spec(#[trigger] d[j].0) < 4096
    &&& forall|j: int|
        0 <= j < s.blocks.keys@.len() && s.blocks.keys@[j] == k ==> s.blocks.sections@[j].palette@.len()
            + apply_cells(s.blocks.sections@[j].cells(), d).1 <= 65536
}

/// What a step needs loaded, and room in the palettes it writes.
pub open spec fn step_ready(s: &WorldState, p: ActionPayload, forward: bool) -> bool {
    match p {
        ActionPayload::SetBlocks { changes } => {
            &&& forall|i: int| 0 <= i < changes@.len() ==> s.blocks.has_key(
                section_key(#[trigger] changes@[i].x, changes@[i].y, changes@[i].z),
            )
            &&& palettes_have_room(&s.blocks, changes@.len())
        },
        ActionPayload::SetBiomes { changes } => {
            &&& forall|i: int| 0 <= i < changes@.len() ==> s.biomes.keys@.contains(
                section_key(#[trigger] changes@[i].x, changes@[i].y, changes@[i].z),
            )
            &&& biome_room(&s.biomes, changes@.len())
        },
        ActionPayload::SetSection { cx, cy, cz, before, after } => section_ready(
            s,
            (cx, cz, cy as i8),
            if forward {
                after@
            } else {
                before@
            },
        ),
        ActionPayload::EntitySpawn { chunk_x, chunk_z, .. } => chunk_loaded(s, (chunk_x, chunk_z)),
        ActionPayload::EntitySet { chunk_x, chunk_z, .. } => chunk_loaded(s, (chunk_x, chunk_z)),
        ActionPayload::EntityRemove { chunk_x, chunk_z, .. } => chunk_loaded(s, (chunk_x, chunk_z)),
        ActionPayload::PasteTemplate { changes, spawned, .. } => {
            &&& forall|i: int| 0 <= i < changes@.len() ==> s.blocks.has_key(
                section_key(#[trigger] changes@[i].x, changes@[i].y, changes@[i].z),
            )
            &&& palettes_have_room(&s.blocks, changes@.len())
            &&& forall|k: int| 0 <= k < spawned@.len() ==> chunk_loaded(
                s,
                ((#[trigger] spawned@[k]).chunk_x, spawned@[k].chunk_z),
            )
        },
    }
}

fn copy_opt(o: &Option<String>) -> (r: Option<String>)
    ensures
        opt_text(r) == opt_text(*o),
{
    match o {
        Some(x) => Some(copy_string(x)),
        None => None,
    }
}

fn copy_list(src: &Vec<(Option<String>, String)>) -> (l: Vec<(Option<String>, String)>)
    ensures
        list_view(l@) == list_view(src@),
{
    let mut l: Vec<(Option<String>, String)> = Vec::new();
    let mut i: usize = 0;
    assert(list_view(l@) =~= list_view(src@).take(0));
    while i < src.len()
        invariant
            i <= src@.len(),
            list_view(l@) == list_view(src@).take(i as int),
        decreases src.len() - i,
    {
        let ghost before = list_view(l@);
        l.push(copy_entity(&src[i]));
        assert(list_view(l@) =~= before.push(entity_view(src@[i as int])));
        i += 1;
        assert(list_view(l@) =~= list_view(src@).take(i as int));
    }
    assert(list_view(src@).take(i as int) =~= list_view(src@));
    l
}

/// Appends an entity to chunk `c`'s list.
fn ents_push(cs: &mut Vec<EntityChunkState>, c: (i32, i32), e: (Option<String>, String))
    requires
        entities_wf(old(cs)@),
        chunk_pos(entities_view(old(cs)@), c) >= 0,
    ensures
        entities_wf(final(cs)@),
        entities_view(final(cs)@) == with_list(
            entities_view(old(cs)@),
            c,
            list_of(entities_view(old(cs)@), c).push(entity_view(e)),
        ),
{
    let ghost v = entities_view(cs@);
    match find_chunk(cs, c) {
        None => {},
        Some(j) => {
            let mut l = copy_list(&cs[j].entities);
            let ghost before = list_view(l@);
            l.push(e);
            assert(list_view(l@) =~= before.push(entity_view(e)));
            with_chunk_list(cs, j, l);
        },
    }
}

/// Removes the entities of UUID `u` from chunk `c`'s list.
fn ents_drop(cs: &mut Vec<EntityChunkState>, c: (i32, i32), u: &String)
    requires
        entities_wf(old(cs)@),
        chunk_pos(entities_view(old(cs)@), c) >= 0,
    ensures
        entities_wf(final(cs)@),
        entities_view(final(cs)@) == with_list(
            entities_view(old(cs)@),
            c,
            without_uuid(list_of(entities_view(old(cs)@), c), u@),
        ),
{
    match find_chunk(cs, c) {
        None => {},
        Some(j) => {
            let l = drop_uuid(&cs[j].entities, u);
            with_chunk_list(cs, j, l);
        },
    }
}

/// Replaces the first entity of UUID `u` in chunk `c`'s list by `e`.
fn ents_set(cs: &mut Vec<EntityChunkState>, c: (i32, i32), u: &String, e: (Option<String>, String))
    requires
        entities_wf(old(cs)@),
        chunk_pos(entities_view(old(cs)@), c) >= 0,
    ensures
        entities_wf(final(cs)@),
        entities_view(final(cs)@) == with_list(
            entities_view(old(cs)@),
            c,
            set_first(list_of(entities_view(old(cs)@), c), u@, entity_view(e)),
        ),
{
    match find_chunk(cs, c) {
        None => {},
        Some(j) => {
            let mut l = copy_list(&cs[j].entities);
            set_first_uuid(&mut l, u, e);
            with_chunk_list(cs, j, l);
        },
    }
}

/// Entity chunks of a view name distinct chunks.
pub open spec fn view_keys_distinct(v: EntityView) -> bool {
    forall|a: int, b: int| 0 <= a < b < v.len() ==> v[a].0 != v[b].0
}

proof fn lemma_chunk_pos_view(v: EntityView, c: (i32, i32), j: int)
    requires
        view_keys_distinct(v),
        0 <= j < v.len(),
        v[j].0 == c,
    ensures
        chunk_pos(v, c) == j,
{
    let k = choose|k: int| 0 <= k < v.len() && v[k].0 == c;
    if k < j {
        assert(v[k].0 != v[j].0);
    }
    if k > j {
        assert(v[j].0 != v[k].0);
    }
}

proof fn lemma_wf_keys(cs: Seq<EntityChunkState>)
    requires
        entities_wf(cs),
    ensures
        view_keys_distinct(entities_view(cs)),
{
}

/// Replacing a loaded chunk's list keeps which chunks are loaded, where.
proof fn lemma_with_list_keys(v: EntityView, c: (i32, i32), l: EntityList, c2: (i32, i32))
    requires
        view_keys_distinct(v),
        chunk_pos(v, c) >= 0,
    ensures
        view_keys_distinct(with_list(v, c, l)),
        chunk_pos(with_list(v, c, l), c2) == chunk_pos(v, c2),
        with_list(v, c, l).len() == v.len(),
{
    let j = chunk_pos(v, c);
    let w = with_list(v, c, l);
    assert(0 <= j < v.len() && v[j].0 == c);
    assert(forall|i: int| 0 <= i < v.len() ==> #[trigger] w[i].0 == v[i].0);
    if chunk_pos(v, c2) >= 0 {
        let k = chunk_pos(v, c2);
        assert(0 <= k < v.len() && v[k].0 == c2);
        lemma_chunk_pos_view(w, c2, k);
    } else {
        assert(!exists|i: int| 0 <= i < v.len() && v[i].0 == c2);
        assert(!exists|i: int| 0 <= i < w.len() && w[i].0 == c2);
    }
}

/// Removes the entities of UUID `o` from chunk `c`'s list; with no UUID,
/// nothing.
fn ents_drop_id(cs: &mut Vec<EntityChunkState>, c: (i32, i32), o: &Option<String>)
    requires
        entities_wf(old(cs)@),
        chunk_pos(entities_view(old(cs)@), c) >= 0,
    ensures
        entities_wf(final(cs)@),
        entities_view(final(cs)@) == with_list(
            entities_view(old(cs)@),
            c,
            drop_id(list_of(entities_view(old(cs)@), c), opt_text(*o)),
        ),
{
    match o {
        Some(u) => ents_drop(cs, c, u),
        None => {
            proof {
                lemma_wf_keys(cs@);
                lemma_list_of_with(entities_view(cs@), c, list_of(entities_view(cs@), c));
            }
        },
    }
}

/// Applies an action to the loaded parts of a world: forward (redo) or
/// backward (undo). `ids` gives the UUIDs of the action's entity texts (see
/// `ids_needed`); an entity text with none matches no entity.
#[verifier::rlimit(60)]
#[verifier::loop_isolation(false)]
pub fn apply_action(s: &mut WorldState, a: &Action, ids: &Vec<Option<String>>, forward: bool)
    requires
        old(s).wf(),
        ids@.len() == ids_needed(a.payload),
        step_ready(old(s), a.payload, forward),
    ensures
        final(s).wf(),
        final(s).view_of() == step(
            old(s).view_of(),
            a.payload,
            ids_view(ids@),
            forward,
        ),
{
    let ghost w0 = s.view_of();
    let ghost idv = ids_view(ids@);
    match &a.payload {
        ActionPayload::SetBlocks { changes } => {
            apply_block_changes(&mut s.blocks, changes, forward);
        },
        ActionPayload::SetBiomes { changes } => {
            apply_biome_changes(&mut s.biomes, changes, forward);
        },
        ActionPayload::SetSection { cx, cy, cz, before, after } => {
            let k: (i32, i32, i8) = (*cx, *cz, *cy as i8);
            let d = if forward {
                after
            } else {
                before
            };
            assert(d@ == if forward { after@ } else { before@ });
            assert(section_ready(old(s), k, d@));
            match find_biome_key(&s.blocks.keys, k) {
                None => {
                    assert(false);
                },
                Some(idx) => {
                    let ghost secs = s.blocks.sections@;
                    let ghost v = s.blocks.view_cells();
                    let mut sec = s.blocks.sections.remove(idx);
                    assert(sec == secs[idx as int]);
                    d.apply_to(&mut sec);
                    s.blocks.sections.insert(idx, sec);
                    proof {
                        assert(s.blocks.sections@ =~= secs.update(idx as int, sec));
                        assert(s.blocks.view_cells() =~= section_apply(v, k, d@)) by {
                            assert forall|j: int| 0 <= j < v.len() && j != idx implies v[j].0 != k by {
                                if j < idx {
                                    assert(s.blocks.keys@[j] != s.blocks.keys@[idx as int]);
                                } else {
                                    assert(s.blocks.keys@[idx as int] != s.blocks.keys@[j]);
                                }
                            }
                        }
                    }
                },
            }
        },
        ActionPayload::EntitySpawn { chunk_x, chunk_z, entity } => {
            let c = (*chunk_x, *chunk_z);
            if forward {
                ents_push(&mut s.entities, c, (copy_opt(&ids[0]), copy_string(entity)));
            } else {
                ents_drop_id(&mut s.entities, c, &ids[0]);
            }
        },
        ActionPayload::EntitySet { chunk_x, chunk_z, uuid, before, after } => {
            let c = (*chunk_x, *chunk_z);
            let e = if forward {
                (copy_opt(&ids[1]), copy_string(after))
            } else {
                (copy_opt(&ids[0]), copy_string(before))
            };
            ents_set(&mut s.entities, c, uuid, e);
        },
        ActionPayload::EntityRemove { chunk_x, chunk_z, entity } => {
            let c = (*chunk_x, *chunk_z);
            if forward {
                ents_drop_id(&mut s.entities, c, &ids[0]);
            } else {
                ents_push(&mut s.entities, c, (copy_opt(&ids[0]), copy_string(entity)));
            }
        },
        ActionPayload::PasteTemplate { changes, spawned, .. } => {
            if forward {
                apply_block_changes(&mut s.blocks, changes, true);
                let ghost e0 = entities_view(s.entities@);
                let ghost blocks1 = s.blocks;
                assert(e0 == w0.entities);
                let mut k: usize = 0;
                while k < spawned.len()
                    invariant
                        s.blocks == blocks1,
                        s.biomes == old(s).biomes,
                        k <= spawned@.len(),
                        entities_wf(s.entities@),
                        idv == ids_view(ids@),
                        ids@.len() == spawned@.len(),
                        view_keys_distinct(e0),
                        entities_view(s.entities@) == spawn_all(e0, spawned@, idv, k as nat),
                        forall|c: (i32, i32)| #[trigger] chunk_pos(entities_view(s.entities@), c) == chunk_pos(e0, c),
                        forall|m: int| 0 <= m < spawned@.len() ==> chunk_pos(
                            e0,
                            ((#[trigger] spawned@[m]).chunk_x, spawned@[m].chunk_z),
                        ) >= 0,
                    decreases spawned.len() - k,
                {
                    let sp = &spawned[k];
                    let c = (sp.chunk_x, sp.chunk_z);
                    let ghost before = entities_view(s.entities@);
                    let e = (copy_opt(&ids[k]), copy_string(&sp.entity));
                    assert(entity_view(e) == (idv[k as int], sp.entity@));
                    ents_push(&mut s.entities, c, e);
                    proof {
                        lemma_wf_keys(s.entities@);
                        assert forall|c2: (i32, i32)| #[trigger] chunk_pos(entities_view(s.entities@), c2) == chunk_pos(e0, c2) by {
                            lemma_with_list_keys(before, c, list_of(before, c).push(entity_view(e)), c2);
                        }
                    }
                    k += 1;
                }
            } else {
                let ghost e0 = entities_view(s.entities@);
                let mut k: usize = 0;
                while k < spawned.len()
                    invariant
                        s.blocks == old(s).blocks,
                        s.biomes == old(s).biomes,
                        k <= spawned@.len(),
                        entities_wf(s.entities@),
                        idv == ids_view(ids@),
                        ids@.len() == spawned@.len(),
                        view_keys_distinct(e0),
                        entities_view(s.entities@) == remove_all(e0, spawned@, idv, k as nat),
                        forall|c: (i32, i32)| #[trigger] chunk_pos(entities_view(s.entities@), c) == chunk_pos(e0, c),
                        forall|m: int| 0 <= m < spawned@.len() ==> chunk_pos(
                            e0,
                            ((#[trigger] spawned@[m]).chunk_x, spawned@[m].chunk_z),
                        ) >= 0,
                    decreases spawned.len() - k,
                {
                    let sp = &spawned[k];
                    let c = (sp.chunk_x, sp.chunk_z);
                    let ghost before = entities_view(s.entities@);
                    assert(idv[k as int] == opt_text(ids@[k as int]));
                    ents_drop_id(&mut s.entities, c, &ids[k]);
                    proof {
                        lemma_wf_keys(s.entities@);
                        assert forall|c2: (i32, i32)| #[trigger] chunk_pos(entities_view(s.entities@), c2) == chunk_pos(e0, c2) by {
                            lemma_with_list_keys(before, c, drop_id(list_of(before, c), idv[k as int]), c2);
                        }
                    }
                    k += 1;
                }
                apply_block_changes(&mut s.blocks, changes, false);
            }
        },
    }
}

// ---------------------------------------------------------------------------
// Undo after redo

proof fn lemma_list_of_with(v: EntityView, c: (i32, i32), l: EntityList)
    requires
        view_keys_distinct(v),
        chunk_pos(v, c) >= 0,
    ensures
        list_of(with_list(v, c, l), c) == l,
        forall|l2: EntityList| with_list(with_list(v, c, l), c, l2) == with_list(v, c, l2),
        with_list(v, c, list_of(v, c)) == v,
{
    let j = chunk_pos(v, c);
    lemma_with_list_keys(v, c, l, c);
    assert(with_list(v, c, list_of(v, c)) =~= v);
    assert forall|l2: EntityList| with_list(with_list(v, c, l), c, l2) == with_list(v, c, l2) by {
        assert(with_list(with_list(v, c, l), c, l2) =~= with_list(v, c, l2));
    }
}

proof fn lemma_without_absent(l: EntityList, u: Seq<char>)
    requires
        !has_uuid(l, u),
    ensures
        without_uuid(l, u) == l,
    decreases l.len(),
{
    if l.len() > 0 {
        assert(!has_uuid(l.drop_last(), u)) by {
            if has_uuid(l.drop_last(), u) {
                let i = choose|i: int| 0 <= i < l.drop_last().len() && l.drop_last()[i].0 == Some(u);
                assert(l[i] == l.drop_last()[i]);
            }
        }
        lemma_without_absent(l.drop_last(), u);
        assert(l.last().0 != Some(u)) by {
            assert(l[l.len() - 1] == l.last());
        }
        assert(l.drop_last().push(l.last()) =~= l);
    }
}

proof fn lemma_without_concat(a: EntityList, b: EntityList, u: Seq<char>)
    ensures
        without_uuid(a + b, u) == without_uuid(a, u) + without_uuid(b, u),
    decreases b.len(),
{
    if b.len() == 0 {
        assert(a + b =~= a);
        assert(without_uuid(a, u) + without_uuid(b, u) =~= without_uuid(a, u));
    } else {
        assert((a + b).drop_last() =~= a + b.drop_last());
        assert((a + b).last() == b.last());
        lemma_without_concat(a, b.drop_last(), u);
        if b.last().0 == Some(u) {
        } else {
            assert(without_uuid(a, u) + without_uuid(b.drop_last(), u).push(b.last()) =~= (without_uuid(a, u)
                + without_uuid(b.drop_last(), u)).push(b.last()));
        }
    }
}

proof fn lemma_without_members(l: EntityList, u: Seq<char>)
    ensures
        forall|i: int|
            0 <= i < without_uuid(l, u).len() ==> l.contains(#[trigger] without_uuid(l, u)[i]) && without_uuid(
                l,
                u,
            )[i].0 != Some(u),
    decreases l.len(),
{
    if l.len() > 0 {
        lemma_without_members(l.drop_last(), u);
        let p = without_uuid(l.drop_last(), u);
        assert forall|i: int| 0 <= i < without_uuid(l, u).len() implies l.contains(
            #[trigger] without_uuid(l, u)[i],
        ) && without_uuid(l, u)[i].0 != Some(u) by {
            if i < p.len() {
                assert(without_uuid(l, u)[i] == p[i]);
                let k = choose|k: int| 0 <= k < l.drop_last().len() && l.drop_last()[k] == p[i];
                assert(l[k] == l.drop_last()[k]);
            } else {
                assert(without_uuid(l, u)[i] == l.last());
                assert(l[l.len() - 1] == l.last());
            }
        }
    }
}

/// The entities a paste's first `n` spawns put into chunk `c`.
pub open spec fn pushed(sp: Seq<SpawnedEntity>, ids: Seq<Option<Seq<char>>>, c: (i32, i32), n: nat) -> EntityList
    decreases n,
{
    if n == 0 {
        seq![]
    } else {
        pushed(sp, ids, c, (n - 1) as nat) + if (sp[n - 1].chunk_x, sp[n - 1].chunk_z) == c {
            seq![(ids[n - 1], sp[n - 1].entity@)]
        } else {
            seq![]
        }
    }
}

/// Chunk `c`'s list after the first `m` removals of a paste's entities.
pub open spec fn strip(l: EntityList, sp: Seq<SpawnedEntity>, ids: Seq<Option<Seq<char>>>, c: (i32, i32), m: nat) -> EntityList
    decreases m,
{
    if m == 0 {
        l
    } else {
        let p = strip(l, sp, ids, c, (m - 1) as nat);
        if (sp[m - 1].chunk_x, sp[m - 1].chunk_z) == c {
            drop_id(p, ids[m - 1])
        } else {
            p
        }
    }
}

/// The spawns of a paste keep which chunks are loaded, where, and add to
/// each chunk's list what was spawned into it.
proof fn lemma_spawn_all(v: EntityView, sp: Seq<SpawnedEntity>, ids: Seq<Option<Seq<char>>>, n: nat)
    requires
        view_keys_distinct(v),
        n <= sp.len(),
        forall|k: int| 0 <= k < sp.len() ==> chunk_pos(v, ((#[trigger] sp[k]).chunk_x, sp[k].chunk_z)) >= 0,
    ensures
        view_keys_distinct(spawn_all(v, sp, ids, n)),
        spawn_all(v, sp, ids, n).len() == v.len(),
        forall|j: int| 0 <= j < v.len() ==> (#[trigger] spawn_all(v, sp, ids, n)[j]).0 == v[j].0,
        forall|c: (i32, i32)| #[trigger] chunk_pos(spawn_all(v, sp, ids, n), c) == chunk_pos(v, c),
        forall|c: (i32, i32)|
            chunk_pos(v, c) >= 0 ==> #[trigger] list_of(spawn_all(v, sp, ids, n), c) == list_of(v, c) + pushed(
                sp,
                ids,
                c,
                n,
            ),
    decreases n,
{
    if n == 0 {
        assert forall|c: (i32, i32)| chunk_pos(v, c) >= 0 implies #[trigger] list_of(spawn_all(v, sp, ids, n), c)
            == list_of(v, c) + pushed(sp, ids, c, n) by {
            assert(list_of(v, c) + pushed(sp, ids, c, 0) =~= list_of(v, c));
        }
    } else {
        lemma_spawn_all(v, sp, ids, (n - 1) as nat);
        let p = spawn_all(v, sp, ids, (n - 1) as nat);
        let e = sp[n - 1];
        let c0 = (e.chunk_x, e.chunk_z);
        let l0 = list_of(p, c0).push((ids[n - 1], e.entity@));
        assert(chunk_pos(v, c0) >= 0);
        assert(chunk_pos(p, c0) >= 0);
        let w = with_list(p, c0, l0);
        assert forall|c: (i32, i32)| #[trigger] chunk_pos(w, c) == chunk_pos(v, c) by {
            lemma_with_list_keys(p, c0, l0, c);
        }
        lemma_with_list_keys(p, c0, l0, c0);
        lemma_list_of_with(p, c0, l0);
        assert forall|j: int| 0 <= j < v.len() implies (#[trigger] w[j]).0 == v[j].0 by {
            assert(p[j].0 == v[j].0);
        }
        assert forall|c: (i32, i32)| chunk_pos(v, c) >= 0 implies #[trigger] list_of(w, c) == list_of(v, c)
            + pushed(sp, ids, c, n) by {
            assert(list_of(p, c) == list_of(v, c) + pushed(sp, ids, c, (n - 1) as nat));
            if c == c0 {
                assert(list_of(w, c) == l0);
                assert(pushed(sp, ids, c, n) == pushed(sp, ids, c, (n - 1) as nat) + seq![(ids[n - 1], e.entity@)]);
                assert(list_of(v, c) + pushed(sp, ids, c, n) =~= (list_of(v, c) + pushed(sp, ids, c, (n - 1) as nat)).push(
                    (ids[n - 1], e.entity@),
                ));
            } else {
                let jc = chunk_pos(p, c);
                assert(chunk_pos(w, c) == chunk_pos(v, c));
                assert(chunk_pos(p, c) == chunk_pos(v, c));
                assert(0 <= jc < p.len() && p[jc].0 == c);
                let j0 = chunk_pos(p, c0);
                assert(0 <= j0 < p.len() && p[j0].0 == c0);
                assert(w == p.update(j0, (c0, l0)));
                assert(w[jc] == p[jc]);
                assert(list_of(w, c) == list_of(p, c));
                assert(pushed(sp, ids, c, n) == pushed(sp, ids, c, (n - 1) as nat) + Seq::<(Option<Seq<char>>, Seq<char>)>::empty());
                assert(list_of(v, c) + pushed(sp, ids, c, n) =~= list_of(v, c) + pushed(sp, ids, c, (n - 1) as nat));
            }
        }
    }
}

/// The removals of a paste keep which chunks are loaded, where, and strip
/// each chunk's list.
proof fn lemma_remove_all(v: EntityView, sp: Seq<SpawnedEntity>, ids: Seq<Option<Seq<char>>>, m: nat)
    requires
        view_keys_distinct(v),
        m <= sp.len(),
        forall|k: int| 0 <= k < sp.len() ==> chunk_pos(v, ((#[trigger] sp[k]).chunk_x, sp[k].chunk_z)) >= 0,
    ensures
        view_keys_distinct(remove_all(v, sp, ids, m)),
        remove_all(v, sp, ids, m).len() == v.len(),
        forall|j: int| 0 <= j < v.len() ==> (#[trigger] remove_all(v, sp, ids, m)[j]).0 == v[j].0,
        forall|c: (i32, i32)| #[trigger] chunk_pos(remove_all(v, sp, ids, m), c) == chunk_pos(v, c),
        forall|c: (i32, i32)|
            chunk_pos(v, c) >= 0 ==> #[trigger] list_of(remove_all(v, sp, ids, m), c) == strip(
                list_of(v, c),
                sp,
                ids,
                c,
                m,
            ),
    decreases m,
{
    if m > 0 {
        lemma_remove_all(v, sp, ids, (m - 1) as nat);
        let p = remove_all(v, sp, ids, (m - 1) as nat);
        let e = sp[m - 1];
        let c0 = (e.chunk_x, e.chunk_z);
        let l0 = drop_id(list_of(p, c0), ids[m - 1]);
        assert(chunk_pos(v, c0) >= 0);
        assert(chunk_pos(p, c0) >= 0);
        let w = with_list(p, c0, l0);
        assert forall|c: (i32, i32)| #[trigger] chunk_pos(w, c) == chunk_pos(v, c) by {
            lemma_with_list_keys(p, c0, l0, c);
        }
        lemma_with_list_keys(p, c0, l0, c0);
        lemma_list_of_with(p, c0, l0);
        assert forall|j: int| 0 <= j < v.len() implies (#[trigger] w[j]).0 == v[j].0 by {
            assert(p[j].0 == v[j].0);
        }
        assert forall|c: (i32, i32)| chunk_pos(v, c) >= 0 implies #[trigger] list_of(w, c) == strip(
            list_of(v, c),
            sp,
            ids,
            c,
            m,
        ) by {
            assert(list_of(p, c) == strip(list_of(v, c), sp, ids, c, (m - 1) as nat));
            if c == c0 {
                assert(list_of(w, c) == l0);
            } else {
                let jc = chunk_pos(p, c);
                assert(chunk_pos(w, c) == chunk_pos(v, c));
                assert(chunk_pos(p, c) == chunk_pos(v, c));
                assert(0 <= jc < p.len() && p[jc].0 == c);
                let j0 = chunk_pos(p, c0);
                assert(0 <= j0 < p.len() && p[j0].0 == c0);
                assert(w == p.update(j0, (c0, l0)));
                assert(w[jc] == p[jc]);
                assert(list_of(w, c) == list_of(p, c));
            }
        }
    }
}

proof fn lemma_strip_concat(a: EntityList, b: EntityList, sp: Seq<SpawnedEntity>, ids: Seq<Option<Seq<char>>>, c: (i32, i32), m: nat)
    requires
        m <= sp.len(),
    ensures
        strip(a + b, sp, ids, c, m) == strip(a, sp, ids, c, m) + strip(b, sp, ids, c, m),
    decreases m,
{
    if m > 0 {
        lemma_strip_concat(a, b, sp, ids, c, (m - 1) as nat);
        if (sp[m - 1].chunk_x, sp[m - 1].chunk_z) == c && ids[m - 1] is Some {
            lemma_without_concat(
                strip(a, sp, ids, c, (m - 1) as nat),
                strip(b, sp, ids, c, (m - 1) as nat),
                ids[m - 1].unwrap(),
            );
        }
    }
}

/// No removed UUID is in the list: stripping leaves it.
proof fn lemma_strip_absent(l: EntityList, sp: Seq<SpawnedEntity>, ids: Seq<Option<Seq<char>>>, c: (i32, i32), m: nat)
    requires
        m <= sp.len(),
        forall|k: int| 0 <= k < m && (sp[k].chunk_x, sp[k].chunk_z) == c ==> !has_uuid(l, #[trigger] ids[k].unwrap()),
    ensures
        strip(l, sp, ids, c, m) == l,
    decreases m,
{
    if m > 0 {
        lemma_strip_absent(l, sp, ids, c, (m - 1) as nat);
        if (sp[m - 1].chunk_x, sp[m - 1].chunk_z) == c && ids[m - 1] is Some {
            assert(!has_uuid(l, ids[m - 1].unwrap()));
            lemma_without_absent(l, ids[m - 1].unwrap());
        }
    }
}

/// What stripping keeps comes from the list and has none of the removed
/// UUIDs.
proof fn lemma_strip_members(l: EntityList, sp: Seq<SpawnedEntity>, ids: Seq<Option<Seq<char>>>, c: (i32, i32), m: nat)
    requires
        m <= sp.len(),
    ensures
        forall|i: int|
            0 <= i < strip(l, sp, ids, c, m).len() ==> l.contains(#[trigger] strip(l, sp, ids, c, m)[i]) && forall|k: int|
                0 <= k < m && (sp[k].chunk_x, sp[k].chunk_z) == c && ids[k] is Some ==> strip(l, sp, ids, c, m)[i].0
                    != Some(ids[k].unwrap()),
    decreases m,
{
    if m > 0 {
        lemma_strip_members(l, sp, ids, c, (m - 1) as nat);
        let p = strip(l, sp, ids, c, (m - 1) as nat);
        if (sp[m - 1].chunk_x, sp[m - 1].chunk_z) == c && ids[m - 1] is Some {
            let u = ids[m - 1].unwrap();
            lemma_without_members(p, u);
            let r = without_uuid(p, u);
            assert forall|i: int| 0 <= i < r.len() implies l.contains(#[trigger] r[i]) && forall|k: int|
                0 <= k < m && (sp[k].chunk_x, sp[k].chunk_z) == c && ids[k] is Some ==> r[i].0 != Some(ids[k].unwrap()) by {
                assert(p.contains(r[i]));
                let q = choose|q: int| 0 <= q < p.len() && p[q] == r[i];
                assert(l.contains(p[q]));
            }
        }
    }
}

/// UUID `x` is that of one of the first `n` spawns into chunk `c`.
pub open spec fn spawned_id(sp: Seq<SpawnedEntity>, ids: Seq<Option<Seq<char>>>, c: (i32, i32), n: nat, x: Option<Seq<char>>) -> bool {
    exists|k: int| 0 <= k < n && (sp[k].chunk_x, sp[k].chunk_z) == c && ids[k] == x
}

/// Every entity pushed into `c` has the UUID of one of the spawns into `c`.
proof fn lemma_pushed_ids(sp: Seq<SpawnedEntity>, ids: Seq<Option<Seq<char>>>, c: (i32, i32), n: nat)
    requires
        n <= sp.len(),
        n <= ids.len(),
    ensures
        forall|i: int|
            0 <= i < pushed(sp, ids, c, n).len() ==> spawned_id(sp, ids, c, n, #[trigger] pushed(sp, ids, c, n)[i].0),
    decreases n,
{
    if n > 0 {
        lemma_pushed_ids(sp, ids, c, (n - 1) as nat);
        let p = pushed(sp, ids, c, (n - 1) as nat);
        assert forall|i: int| 0 <= i < pushed(sp, ids, c, n).len() implies spawned_id(
            sp,
            ids,
            c,
            n,
            #[trigger] pushed(sp, ids, c, n)[i].0,
        ) by {
            if i < p.len() {
                assert(pushed(sp, ids, c, n)[i] == p[i]);
                assert(spawned_id(sp, ids, c, (n - 1) as nat, p[i].0));
                let k = choose|k: int| 0 <= k < n - 1 && (sp[k].chunk_x, sp[k].chunk_z) == c && ids[k] == p[i].0;
                assert(0 <= k < n && (sp[k].chunk_x, sp[k].chunk_z) == c && ids[k] == p[i].0);
            } else {
                assert(pushed(sp, ids, c, n)[i].0 == ids[n - 1]);
                let k = n - 1;
                assert(0 <= k < n && (sp[k].chunk_x, sp[k].chunk_z) == c && ids[k] == ids[n - 1]);
            }
        }
    }
}

/// Removing every spawned entity of a paste, by UUID, leaves a chunk's
/// list as it was before the spawns.
proof fn lemma_paste_entities_restore(v: EntityView, sp: Seq<SpawnedEntity>, ids: Seq<Option<Seq<char>>>)
    requires
        view_keys_distinct(v),
        ids.len() == sp.len(),
        forall|k: int| 0 <= k < sp.len() ==> chunk_pos(v, ((#[trigger] sp[k]).chunk_x, sp[k].chunk_z)) >= 0,
        forall|k: int| 0 <= k < sp.len() ==> (#[trigger] ids[k]) is Some,
        forall|k: int|
            0 <= k < sp.len() ==> !has_uuid(list_of(v, ((#[trigger] sp[k]).chunk_x, sp[k].chunk_z)), ids[k].unwrap()),
    ensures
        remove_all(spawn_all(v, sp, ids, sp.len()), sp, ids, sp.len()) == v,
{
    let n = sp.len();
    let x = spawn_all(v, sp, ids, n);
    lemma_spawn_all(v, sp, ids, n);
    lemma_remove_all(x, sp, ids, n);
    let y = remove_all(x, sp, ids, n);
    assert forall|j: int| 0 <= j < v.len() implies #[trigger] y[j] == v[j] by {
        let c = v[j].0;
        lemma_chunk_pos_view(v, c, j);
        assert(chunk_pos(x, c) == j);
        assert(chunk_pos(y, c) == j);
        assert(list_of(x, c) == list_of(v, c) + pushed(sp, ids, c, n));
        lemma_strip_concat(list_of(v, c), pushed(sp, ids, c, n), sp, ids, c, n);
        lemma_strip_absent(list_of(v, c), sp, ids, c, n);
        lemma_strip_members(pushed(sp, ids, c, n), sp, ids, c, n);
        lemma_pushed_ids(sp, ids, c, n);
        let st = strip(pushed(sp, ids, c, n), sp, ids, c, n);
        if st.len() > 0 {
            let e = st[0];
            assert(pushed(sp, ids, c, n).contains(e));
            let q = choose|q: int| 0 <= q < pushed(sp, ids, c, n).len() && pushed(sp, ids, c, n)[q] == e;
            assert(spawned_id(sp, ids, c, n, pushed(sp, ids, c, n)[q].0));
            let k = choose|k: int| 0 <= k < n && (sp[k].chunk_x, sp[k].chunk_z) == c && ids[k] == pushed(sp, ids, c, n)[q].0;
            assert(ids[k] is Some);
            assert(e.0 != Some(ids[k].unwrap()));
        }
        assert(st =~= Seq::<(Option<Seq<char>>, Seq<char>)>::empty());
        assert(list_of(v, c) + st =~= list_of(v, c));
        assert(y[j].1 == list_of(y, c));
        assert(v[j].1 == list_of(v, c));
    }
    assert(y =~= v);
}

/// A UUID's first entity: where it is, that it has the UUID, and that none
/// before it has.
proof fn lemma_first_uuid(l: EntityList, u: Seq<char>)
    requires
        has_uuid(l, u),
    ensures
        0 <= first_uuid(l, u) < l.len(),
        l[first_uuid(l, u)].0 == Some(u),
        forall|m: int| 0 <= m < first_uuid(l, u) ==> (#[trigger] l[m]).0 != Some(u),
{
    let i = choose|i: int| 0 <= i < l.len() && l[i].0 == Some(u);
    let j = lemma_earliest_uuid(l, u, i);
    assert(0 <= j < l.len() && l[j].0 == Some(u) && forall|m: int| 0 <= m < j ==> (#[trigger] l[m]).0 != Some(u));
}

proof fn lemma_earliest_uuid(l: EntityList, u: Seq<char>, i: int) -> (j: int)
    requires
        0 <= i < l.len(),
        l[i].0 == Some(u),
    ensures
        0 <= j <= i,
        l[j].0 == Some(u),
        forall|m: int| 0 <= m < j ==> (#[trigger] l[m]).0 != Some(u),
    decreases i,
{
    if exists|m: int| 0 <= m < i && (#[trigger] l[m]).0 == Some(u) {
        let m = choose|m: int| 0 <= m < i && (#[trigger] l[m]).0 == Some(u);
        lemma_earliest_uuid(l, u, m)
    } else {
        i
    }
}

/// A block change list that one pass can take back: its sections are
/// loaded, its positions are in range and distinct, and each cell holds the
/// change's recorded new state (`after`) or old state.
pub open spec fn block_changes_reversible(s: &SectionStore, cs: Seq<crate::action::BlockChange>, after: bool) -> bool {
    &&& forall|a: int| 0 <= a < cs.len() ==> s.has_key(section_key(#[trigger] cs[a].x, cs[a].y, cs[a].z))
    &&& forall|a: int| 0 <= a < cs.len() ==> -2048 <= (#[trigger] cs[a]).y < 2048
    &&& forall|a: int, b: int|
        0 <= a < b < cs.len() ==> (cs[a].x, cs[a].y, cs[a].z) != (cs[b].x, cs[b].y, cs[b].z)
    &&& forall|a: int, j: int|
        0 <= a < cs.len() && 0 <= j < s.keys@.len() && s.keys@[j] == section_key(cs[a].x, cs[a].y, cs[a].z)
            ==> s.sections@[j].cells()[local_index(cs[a].x, cs[a].y, cs[a].z)] == if after {
            cs[a].after@
        } else {
            cs[a].before@
        }
}

/// A section diff whose undo gives the cells back: it names distinct cells,
/// none of which holds the keep marker, and its recorded old states are
/// what those cells hold.
pub open spec fn section_diff_reversible(
    cells: Seq<BlockStateView>,
    before: Seq<(Seq<char>, BlockStateView)>,
    after: Seq<(Seq<char>, BlockStateView)>,
) -> bool {
    &&& distinct_cells(after)
    &&& forall|j: int| 0 <= j < after.len() ==> !is_empty_sentinel_view(
        #[trigger] cells[key_index_spec(after[j].0) as int],
    )
    &&& before == captured(cells, after)
}

/// What undoing an action right after redoing it needs in order to give the
/// loaded parts back, for each kind of action: the block and biome changes
/// record what the cells hold, at distinct cells; a section diff records
/// what its cells hold; a spawned entity's UUID is new to its chunk; a set
/// entity keeps its UUID and its recorded old text is what the chunk holds;
/// a removed entity is the last of its chunk's list and the only one with
/// its UUID; and a paste's spawned entities have UUIDs new to their loaded
/// chunks.
pub open spec fn undo_restores_ready(s: &WorldState, p: ActionPayload, ids: Seq<Option<Seq<char>>>) -> bool {
    let e = entities_view(s.entities@);
    match p {
        ActionPayload::SetBlocks { changes } => block_changes_reversible(&s.blocks, changes@, false),
        ActionPayload::SetBiomes { changes } => {
            &&& distinct_biome_cells(changes@)
            &&& forall|a: int, j: int|
                0 <= a < changes@.len() && 0 <= j < s.biomes.keys@.len() && s.biomes.keys@[j] == section_key(
                    changes@[a].x,
                    changes@[a].y,
                    changes@[a].z,
                ) ==> s.biomes.sections@[j].cells()[biome_cell(changes@[a].x, changes@[a].y, changes@[a].z)]
                    == biome_value(changes@[a], false)
        },
        ActionPayload::SetSection { cx, cy, cz, before, after } => forall|j: int|
            0 <= j < s.blocks.keys@.len() && s.blocks.keys@[j] == (cx, cz, cy as i8) ==> section_diff_reversible(
                (#[trigger] s.blocks.sections@[j]).cells(),
                before@,
                after@,
            ),
        ActionPayload::EntitySpawn { chunk_x, chunk_z, .. } => {
            &&& ids.len() >= 1
            &&& ids[0] is Some
            &&& !has_uuid(list_of(e, (chunk_x, chunk_z)), ids[0].unwrap())
        },
        ActionPayload::EntitySet { chunk_x, chunk_z, uuid, before, .. } => {
            let l = list_of(e, (chunk_x, chunk_z));
            &&& ids.len() >= 2
            &&& has_uuid(l, uuid@) ==> ids[0] == Some(uuid@) && ids[1] == Some(uuid@) && l[first_uuid(l, uuid@)].1
                == before@
        },
        ActionPayload::EntityRemove { chunk_x, chunk_z, entity } => {
            let l = list_of(e, (chunk_x, chunk_z));
            &&& ids.len() >= 1
            &&& ids[0] is Some
            &&& chunk_pos(e, (chunk_x, chunk_z)) >= 0 ==> l.len() > 0 && l.last() == (ids[0], entity@) && !has_uuid(
                l.drop_last(),
                ids[0].unwrap(),
            )
        },
        ActionPayload::PasteTemplate { changes, spawned, .. } => {
            &&& block_changes_reversible(&s.blocks, changes@, false)
            &&& ids.len() == spawned@.len()
            &&& forall|k: int| 0 <= k < spawned@.len() ==> chunk_loaded(s, ((#[trigger] spawned@[k]).chunk_x, spawned@[k].chunk_z))
            &&& forall|k: int| 0 <= k < spawned@.len() ==> (#[trigger] ids[k]) is Some
            &&& forall|k: int|
                0 <= k < spawned@.len() ==> !has_uuid(
                    list_of(e, ((#[trigger] spawned@[k]).chunk_x, spawned@[k].chunk_z)),
                    ids[k].unwrap(),
                )
        },
    }
}

proof fn lemma_section_apply_undo(s: &SectionStore, k: (i32, i32, i8), before: Seq<(Seq<char>, BlockStateView)>, after: Seq<(Seq<char>, BlockStateView)>)
    requires
        s.wf(),
        forall|j: int|
            0 <= j < s.keys@.len() && s.keys@[j] == k ==> section_diff_reversible(
                (#[trigger] s.sections@[j]).cells(),
                before,
                after,
            ),
    ensures
        section_apply(section_apply(s.view_cells(), k, after), k, before) == s.view_cells(),
{
    let v = s.view_cells();
    let f = section_apply(v, k, after);
    let g = section_apply(f, k, before);
    assert forall|j: int| 0 <= j < v.len() implies #[trigger] g[j] == v[j] by {
        if v[j].0 == k {
            let cells = s.sections@[j].cells();
            assert(section_diff_reversible(cells, before, after));
            law_capture_then_apply_undoes(cells, after);
        }
    }
    assert(g =~= v);
}

proof fn lemma_spawn_undo(v: EntityView, c: (i32, i32), x: (Option<Seq<char>>, Seq<char>), u: Seq<char>)
    requires
        view_keys_distinct(v),
        x.0 == Some(u),
        !has_uuid(list_of(v, c), u),
    ensures
        ({
            let w = with_list(v, c, list_of(v, c).push(x));
            with_list(w, c, without_uuid(list_of(w, c), u)) == v
        }),
{
    if chunk_pos(v, c) >= 0 {
        let l = list_of(v, c);
        let l1 = l.push(x);
        lemma_list_of_with(v, c, l1);
        assert(l1.drop_last() =~= l);
        lemma_without_absent(l, u);
        assert(without_uuid(l1, u) == l);
    }
}

proof fn lemma_remove_undo(v: EntityView, c: (i32, i32), x: (Option<Seq<char>>, Seq<char>), u: Seq<char>)
    requires
        view_keys_distinct(v),
        x.0 == Some(u),
        chunk_pos(v, c) >= 0 ==> list_of(v, c).len() > 0 && list_of(v, c).last() == x && !has_uuid(
            list_of(v, c).drop_last(),
            u,
        ),
    ensures
        ({
            let w = with_list(v, c, without_uuid(list_of(v, c), u));
            with_list(w, c, list_of(w, c).push(x)) == v
        }),
{
    if chunk_pos(v, c) >= 0 {
        let l = list_of(v, c);
        let l1 = without_uuid(l, u);
        lemma_without_absent(l.drop_last(), u);
        assert(l1 == l.drop_last());
        lemma_list_of_with(v, c, l1);
        assert(l1.push(x) =~= l);
    }
}

proof fn lemma_set_undo(v: EntityView, c: (i32, i32), u: Seq<char>, a: (Option<Seq<char>>, Seq<char>), b: (Option<Seq<char>>, Seq<char>))
    requires
        view_keys_distinct(v),
        has_uuid(list_of(v, c), u) ==> a.0 == Some(u) && b == list_of(v, c)[first_uuid(list_of(v, c), u)],
    ensures
        ({
            let w = with_list(v, c, set_first(list_of(v, c), u, a));
            with_list(w, c, set_first(list_of(w, c), u, b)) == v
        }),
{
    if chunk_pos(v, c) >= 0 {
        let l = list_of(v, c);
        let l1 = set_first(l, u, a);
        lemma_list_of_with(v, c, l1);
        if has_uuid(l, u) {
            lemma_first_uuid(l, u);
            let j = first_uuid(l, u);
            assert(l1 == l.update(j, a));
            assert(l1[j].0 == Some(u));
            assert(has_uuid(l1, u));
            lemma_first_uuid(l1, u);
            let j1 = first_uuid(l1, u);
            if j1 < j {
                assert(l1[j1] == l[j1]);
            }
            if j1 > j {
                assert(l1[j].0 != Some(u));
            }
            assert(set_first(l1, u, b) =~= l);
        } else {
            assert(l1 == l);
            assert(set_first(l1, u, b) == l);
        }
    }
}

/// Undoing an action right after redoing it gives back the loaded parts of
/// the world, for every kind of action: block changes, biome changes, a
/// section diff, an entity's spawn, change or removal, and a paste with its
/// blocks and spawned entities. It holds when the action's records agree
/// with the world as `undo_restores_ready` says.
pub proof fn law_action_undo_after_redo(s: WorldState, p: ActionPayload, ids: Seq<Option<Seq<char>>>)
    requires
        s.wf(),
        undo_restores_ready(&s, p, ids),
    ensures
        step(step(s.view_of(), p, ids, true), p, ids, false) == s.view_of(),
{
    let w = s.view_of();
    let e = w.entities;
    lemma_wf_keys(s.entities@);
    match p {
        ActionPayload::SetBlocks { changes } => {
            law_undo_after_apply_restores(s.blocks, changes@);
        },
        ActionPayload::SetBiomes { changes } => {
            law_biome_changes_reverse(s.biomes, changes@, true);
        },
        ActionPayload::SetSection { cx, cy, cz, before, after } => {
            lemma_section_apply_undo(&s.blocks, (cx, cz, cy as i8), before@, after@);
        },
        ActionPayload::EntitySpawn { chunk_x, chunk_z, entity } => {
            lemma_spawn_undo(e, (chunk_x, chunk_z), (ids[0], entity@), ids[0].unwrap());
        },
        ActionPayload::EntitySet { chunk_x, chunk_z, uuid, before, after } => {
            let l = list_of(e, (chunk_x, chunk_z));
            if has_uuid(l, uuid@) {
                lemma_first_uuid(l, uuid@);
            }
            lemma_set_undo(e, (chunk_x, chunk_z), uuid@, (ids[1], after@), (ids[0], before@));
        },
        ActionPayload::EntityRemove { chunk_x, chunk_z, entity } => {
            lemma_remove_undo(e, (chunk_x, chunk_z), (ids[0], entity@), ids[0].unwrap());
        },
        ActionPayload::PasteTemplate { changes, spawned, .. } => {
            law_undo_after_apply_restores(s.blocks, changes@);
            lemma_paste_entities_restore(e, spawned@, ids);
        },
    }
}

/// The lists of a paste's loaded chunks end with what the paste spawned
/// into them, and what comes before has none of the spawned UUIDs.
pub open spec fn ends_with_spawned(v: EntityView, sp: Seq<SpawnedEntity>, ids: Seq<Option<Seq<char>>>) -> bool {
    forall|c: (i32, i32)|
        chunk_pos(v, c) >= 0 ==> {
            let l = #[trigger] list_of(v, c);
            let q = pushed(sp, ids, c, sp.len());
            &&& q.len() <= l.len()
            &&& l.subrange(l.len() - q.len(), l.len() as int) == q
            &&& forall|k: int|
                0 <= k < sp.len() && (sp[k].chunk_x, sp[k].chunk_z) == c ==> !has_uuid(
                    l.subrange(0, l.len() - q.len()),
                    (#[trigger] ids[k]).unwrap(),
                )
        }
}

/// Removing a paste's spawned entities by UUID and spawning them again
/// gives back lists that end with them.
proof fn lemma_paste_entities_redo(v: EntityView, sp: Seq<SpawnedEntity>, ids: Seq<Option<Seq<char>>>)
    requires
        view_keys_distinct(v),
        ids.len() == sp.len(),
        forall|k: int| 0 <= k < sp.len() ==> chunk_pos(v, ((#[trigger] sp[k]).chunk_x, sp[k].chunk_z)) >= 0,
        forall|k: int| 0 <= k < sp.len() ==> (#[trigger] ids[k]) is Some,
        ends_with_spawned(v, sp, ids),
    ensures
        spawn_all(remove_all(v, sp, ids, sp.len()), sp, ids, sp.len()) == v,
{
    let n = sp.len();
    lemma_remove_all(v, sp, ids, n);
    let y = remove_all(v, sp, ids, n);
    assert forall|k: int| 0 <= k < sp.len() implies chunk_pos(y, ((#[trigger] sp[k]).chunk_x, sp[k].chunk_z)) >= 0 by {
        assert(chunk_pos(y, (sp[k].chunk_x, sp[k].chunk_z)) == chunk_pos(v, (sp[k].chunk_x, sp[k].chunk_z)));
    }
    lemma_spawn_all(y, sp, ids, n);
    let z = spawn_all(y, sp, ids, n);
    assert forall|j: int| 0 <= j < v.len() implies #[trigger] z[j] == v[j] by {
        let c = v[j].0;
        lemma_chunk_pos_view(v, c, j);
        assert(chunk_pos(y, c) == j);
        assert(chunk_pos(z, c) == j);
        let l = list_of(v, c);
        let q = pushed(sp, ids, c, n);
        let pre = l.subrange(0, l.len() - q.len());
        assert(l == pre + q) by {
            assert(l =~= pre + l.subrange(l.len() - q.len(), l.len() as int));
        }
        lemma_strip_concat(pre, q, sp, ids, c, n);
        lemma_strip_absent(pre, sp, ids, c, n);
        lemma_strip_members(q, sp, ids, c, n);
        lemma_pushed_ids(sp, ids, c, n);
        let st = strip(q, sp, ids, c, n);
        if st.len() > 0 {
            let e = st[0];
            assert(q.contains(e));
            let r = choose|r: int| 0 <= r < q.len() && q[r] == e;
            assert(spawned_id(sp, ids, c, n, q[r].0));
            let k = choose|k: int| 0 <= k < n && (sp[k].chunk_x, sp[k].chunk_z) == c && ids[k] == q[r].0;
            assert(ids[k] is Some);
            assert(e.0 != Some(ids[k].unwrap()));
        }
        assert(st =~= Seq::<(Option<Seq<char>>, Seq<char>)>::empty());
        assert(list_of(y, c) == pre + st);
        assert(pre + st =~= pre);
        assert(list_of(z, c) == pre + q);
        assert(z[j].1 == list_of(z, c));
        assert(v[j].1 == list_of(v, c));
        assert(z[j].0 == v[j].0);
    }
    assert(z =~= v);
}

/// What redoing an action right after undoing it needs in order to give the
/// loaded parts back, for each kind of action: the block and biome changes
/// record what the cells now hold, at distinct cells; a section diff's
/// old states, at distinct cells, are what a capture of its new states
/// would record; a spawned entity is the last of its chunk's list and the
/// only one with its UUID; a removed entity's UUID is new to its chunk; a
/// set entity keeps its UUID and its recorded new text is what the chunk
/// holds; and a paste's loaded chunks end with what it spawned.
pub open spec fn redo_restores_ready(s: &WorldState, p: ActionPayload, ids: Seq<Option<Seq<char>>>) -> bool {
    let e = entities_view(s.entities@);
    match p {
        ActionPayload::SetBlocks { changes } => block_changes_reversible(&s.blocks, changes@, true),
        ActionPayload::SetBiomes { changes } => {
            &&& distinct_biome_cells(changes@)
            &&& forall|a: int, j: int|
                0 <= a < changes@.len() && 0 <= j < s.biomes.keys@.len() && s.biomes.keys@[j] == section_key(
                    changes@[a].x,
                    changes@[a].y,
                    changes@[a].z,
                ) ==> s.biomes.sections@[j].cells()[biome_cell(changes@[a].x, changes@[a].y, changes@[a].z)]
                    == biome_value(changes@[a], true)
        },
        ActionPayload::SetSection { cx, cy, cz, before, after } => forall|j: int|
            0 <= j < s.blocks.keys@.len() && s.blocks.keys@[j] == (cx, cz, cy as i8) ==> section_diff_reversible(
                (#[trigger] s.blocks.sections@[j]).cells(),
                after@,
                before@,
            ),
        ActionPayload::EntitySpawn { chunk_x, chunk_z, entity } => {
            let l = list_of(e, (chunk_x, chunk_z));
            &&& ids.len() >= 1
            &&& ids[0] is Some
            &&& chunk_pos(e, (chunk_x, chunk_z)) >= 0 ==> l.len() > 0 && l.last() == (ids[0], entity@) && !has_uuid(
                l.drop_last(),
                ids[0].unwrap(),
            )
        },
        ActionPayload::EntitySet { chunk_x, chunk_z, uuid, after, .. } => {
            let l = list_of(e, (chunk_x, chunk_z));
            &&& ids.len() >= 2
            &&& has_uuid(l, uuid@) ==> ids[0] == Some(uuid@) && ids[1] == Some(uuid@) && l[first_uuid(l, uuid@)].1
                == after@
        },
        ActionPayload::EntityRemove { chunk_x, chunk_z, .. } => {
            &&& ids.len() >= 1
            &&& ids[0] is Some
            &&& !has_uuid(list_of(e, (chunk_x, chunk_z)), ids[0].unwrap())
        },
        ActionPayload::PasteTemplate { changes, spawned, .. } => {
            &&& block_changes_reversible(&s.blocks, changes@, true)
            &&& ids.len() == spawned@.len()
            &&& forall|k: int| 0 <= k < spawned@.len() ==> chunk_loaded(s, ((#[trigger] spawned@[k]).chunk_x, spawned@[k].chunk_z))
            &&& forall|k: int| 0 <= k < spawned@.len() ==> (#[trigger] ids[k]) is Some
            &&& ends_with_spawned(e, spawned@, ids)
        },
    }
}

/// Redoing an action right after undoing it gives back the loaded parts of
/// the world, for every kind of action, when the action's records agree
/// with the world as `redo_restores_ready` says.
pub proof fn law_action_redo_after_undo(s: WorldState, p: ActionPayload, ids: Seq<Option<Seq<char>>>)
    requires
        s.wf(),
        redo_restores_ready(&s, p, ids),
    ensures
        step(step(s.view_of(), p, ids, false), p, ids, true) == s.view_of(),
{
    let w = s.view_of();
    let e = w.entities;
    lemma_wf_keys(s.entities@);
    match p {
        ActionPayload::SetBlocks { changes } => {
            crate::edit_apply::law_redo_after_undo_restores(s.blocks, changes@);
        },
        ActionPayload::SetBiomes { changes } => {
            law_biome_changes_reverse(s.biomes, changes@, false);
        },
        ActionPayload::SetSection { cx, cy, cz, before, after } => {
            lemma_section_apply_undo(&s.blocks, (cx, cz, cy as i8), after@, before@);
        },
        ActionPayload::EntitySpawn { chunk_x, chunk_z, entity } => {
            lemma_remove_undo(e, (chunk_x, chunk_z), (ids[0], entity@), ids[0].unwrap());
        },
        ActionPayload::EntitySet { chunk_x, chunk_z, uuid, before, after } => {
            let l = list_of(e, (chunk_x, chunk_z));
            if has_uuid(l, uuid@) {
                lemma_first_uuid(l, uuid@);
            }
            lemma_set_undo(e, (chunk_x, chunk_z), uuid@, (ids[0], before@), (ids[1], after@));
        },
        ActionPayload::EntityRemove { chunk_x, chunk_z, entity } => {
            lemma_spawn_undo(e, (chunk_x, chunk_z), (ids[0], entity@), ids[0].unwrap());
        },
        ActionPayload::PasteTemplate { changes, spawned, .. } => {
            crate::edit_apply::law_redo_after_undo_restores(s.blocks, changes@);
            lemma_paste_entities_redo(e, spawned@, ids);
        },
    }
}

} // verus!
