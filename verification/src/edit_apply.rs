//! Applying recorded block changes to the sections they touch, forward
//! (redo) or backward (undo).

use vstd::prelude::*;
use crate::action::BlockChange;
use crate::blockstate::BlockStateView;
use crate::chunk::{lemma_shr4, local_in_chunk};
use crate::palette::{index_spec, lemma_index_small, SectionBlocks};

verus! {

/// The sections an edit reads and writes, each under its key (chunk x,
/// chunk z, section y).
pub struct SectionStore {
    pub keys: Vec<(i32, i32, i8)>,
    pub sections: Vec<SectionBlocks>,
}

/// The section holding a block position.
pub open spec fn section_key(x: i32, y: i32, z: i32) -> (i32, i32, i8) {
    (x >> 4u32, z >> 4u32, (y >> 4u32) as i8)
}

/// A block's cell inside its section.
pub open spec fn local_index(x: i32, y: i32, z: i32) -> int {
    (y % 16) * 256 + (z % 16) * 16 + (x % 16)
}

/// Each key with the cells of its section.
pub type StoreView = Seq<((i32, i32, i8), Seq<BlockStateView>)>;

impl SectionStore {
    pub open spec fn view_cells(&self) -> StoreView {
        Seq::new(self.keys@.len(), |i: int| (self.keys@[i], self.sections@[i].cells()))
    }

    /// One section per key, keys distinct, sections well formed.
    pub open spec fn wf(&self) -> bool {
        &&& self.keys@.len() == self.sections@.len()
        &&& forall|a: int, b: int| 0 <= a < b < self.keys@.len() ==> self.keys@[a] != self.keys@[b]
        &&& forall|i: int| 0 <= i < self.sections@.len() ==> (#[trigger] self.sections@[i]).wf()
    }

    pub open spec fn has_key(&self, k: (i32, i32, i8)) -> bool {
        self.keys@.contains(k)
    }
}

/// One write: a position and the state written there.
pub type Write = (i32, i32, i32, BlockStateView);

/// The cells after setting `b` at cell `i` of the section under `k`.
pub open spec fn set_in(v: StoreView, k: (i32, i32, i8), i: int, b: BlockStateView) -> StoreView {
    Seq::new(
        v.len(),
        |j: int|
            if v[j].0 == k {
                (k, v[j].1.update(i, b))
            } else {
                v[j]
            },
    )
}

/// The cells after the first `n` writes, in order.
pub open spec fn applied(v: StoreView, ws: Seq<Write>, n: nat) -> StoreView
    decreases n,
{
    if n == 0 {
        v
    } else {
        let w = ws[n - 1];
        set_in(applied(v, ws, (n - 1) as nat), section_key(w.0, w.1, w.2), local_index(w.0, w.1, w.2), w.3)
    }
}

/// The writes of a change list: each change's new state (forward) or old
/// state (backward), in the list's order.
pub open spec fn writes(cs: Seq<BlockChange>, forward: bool) -> Seq<Write> {
    Seq::new(
        cs.len(),
        |i: int|
            (cs[i].x, cs[i].y, cs[i].z, if forward {
                cs[i].after@
            } else {
                cs[i].before@
            }),
    )
}

/// Room in every section's palette for one new entry per change.
pub open spec fn palettes_have_room(s: &SectionStore, n: nat) -> bool {
    forall|i: int| 0 <= i < s.sections@.len() ==> (#[trigger] s.sections@[i]).palette@.len() + n
        < 65536
}

fn find_key(keys: &Vec<(i32, i32, i8)>, k: (i32, i32, i8)) -> (r: Option<usize>)
    ensures
        match r {
            Some(i) => i < keys@.len() && keys@[i as int] == k,
            None => !keys@.contains(k),
        },
{
    let mut i: usize = 0;
    while i < keys.len()
        invariant
            i <= keys@.len(),
            forall|j: int| 0 <= j < i ==> keys@[j] != k,
        decreases keys.len() - i,
    {
        if keys[i].0 == k.0 && keys[i].1 == k.1 && keys[i].2 == k.2 {
            return Some(i);
        }
        i += 1;
    }
    None
}

/// Apply the changes in order: each change's new state when `forward`
/// (redo), its old state otherwise (undo). Every change's section must be
/// in the store.
pub fn apply_block_changes(store: &mut SectionStore, changes: &Vec<BlockChange>, forward: bool)
    requires
        old(store).wf(),
        palettes_have_room(old(store), changes@.len()),
        forall|i: int|
            0 <= i < changes@.len() ==> old(store).has_key(
                section_key(changes@[i].x, changes@[i].y, changes@[i].z),
            ),
    ensures
        final(store).wf(),
        final(store).keys@ == old(store).keys@,
        final(store).view_cells() == applied(old(store).view_cells(), writes(changes@, forward), changes@.len()),
        forall|i: int|
            0 <= i < final(store).sections@.len() ==> (#[trigger] final(store).sections@[i]).palette@.len()
                <= old(store).sections@[i].palette@.len() + changes@.len(),
{
    let ghost v0 = store.view_cells();
    let ghost ws = writes(changes@, forward);
    let mut n: usize = 0;
    while n < changes.len()
        invariant
            n <= changes@.len(),
            store.wf(),
            store.keys@ == old(store).keys@,
            v0 == old(store).view_cells(),
            ws == writes(changes@, forward),
            store.sections@.len() == old(store).sections@.len(),
            palettes_have_room(old(store), changes@.len()),
            forall|i: int| 0 <= i < store.sections@.len() ==> (#[trigger] store.sections@[i]).palette@.len()
                <= old(store).sections@[i].palette@.len() + n,
            forall|i: int|
                0 <= i < changes@.len() ==> old(store).has_key(
                    section_key(changes@[i].x, changes@[i].y, changes@[i].z),
                ),
            store.view_cells() == applied(v0, ws, n as nat),
        decreases changes.len() - n,
    {
        let c = &changes[n];
        let (lx, ly, lz, sy) = local_in_chunk(c.x, c.y, c.z);
        let key: (i32, i32, i8) = (c.x >> 4u32, c.z >> 4u32, sy);
        let state = if forward {
            c.after.duplicate()
        } else {
            c.before.duplicate()
        };
        assert(key == section_key(c.x, c.y, c.z));
        match find_key(&store.keys, key) {
            None => {
                assert(old(store).has_key(section_key(changes@[n as int].x, changes@[n as int].y, changes@[n as int].z)));
                assert(false);
            },
            Some(idx) => {
                let ghost before = store.view_cells();
                let ghost secs = store.sections@;
                let mut sec = store.sections.remove(idx);
                assert(sec == secs[idx as int]);
                proof {
                    lemma_index_small(lx, ly, lz);
                }
                sec.set(lx, ly, lz, state);
                store.sections.insert(idx, sec);
                proof {
                    assert(store.sections@ =~= secs.update(idx as int, sec));
                    let w = ws[n as int];
                    assert(local_index(c.x, c.y, c.z) == index_spec(lx, ly, lz) as int);
                    assert forall|a: int, b: int| 0 <= a < b < store.keys@.len() implies store.keys@[a]
                        != store.keys@[b] by {}
                    assert(store.view_cells() =~= set_in(
                        before,
                        section_key(w.0, w.1, w.2),
                        local_index(w.0, w.1, w.2),
                        w.3,
                    ));
                }
            },
        }
        n += 1;
    }
}

/// The state the last of the first `n` writes put at cell `i` of the
/// section under `k`, if any wrote there.
pub open spec fn last_write(ws: Seq<Write>, n: nat, k: (i32, i32, i8), i: int) -> Option<BlockStateView>
    decreases n,
{
    if n == 0 {
        None
    } else {
        let w = ws[n - 1];
        if section_key(w.0, w.1, w.2) == k && local_index(w.0, w.1, w.2) == i {
            Some(w.3)
        } else {
            last_write(ws, (n - 1) as nat, k, i)
        }
    }
}

/// After `n` writes, each cell holds the last state written there, or what
/// it held before.
proof fn lemma_applied_cells(v: StoreView, ws: Seq<Write>, n: nat)
    requires
        n <= ws.len(),
        forall|j: int| 0 <= j < v.len() ==> (#[trigger] v[j]).1.len() == 4096,
    ensures
        applied(v, ws, n).len() == v.len(),
        forall|j: int|
            0 <= j < v.len() ==> {
                &&& (#[trigger] applied(v, ws, n)[j]).0 == v[j].0
                &&& applied(v, ws, n)[j].1.len() == v[j].1.len()
                &&& forall|i: int|
                    0 <= i < v[j].1.len() ==> applied(v, ws, n)[j].1[i] == match last_write(
                        ws,
                        n,
                        v[j].0,
                        i,
                    ) {
                        Some(b) => b,
                        None => v[j].1[i],
                    }
            },
    decreases n,
{
    if n > 0 {
        lemma_applied_cells(v, ws, (n - 1) as nat);
        let prev = applied(v, ws, (n - 1) as nat);
        let w = ws[n - 1];
        let k = section_key(w.0, w.1, w.2);
        let li = local_index(w.0, w.1, w.2);
        let cur = applied(v, ws, n);
        assert(cur == set_in(prev, k, li, w.3));
        assert(0 <= li < 4096);
        assert forall|j: int| 0 <= j < v.len() implies {
            &&& (#[trigger] cur[j]).0 == v[j].0
            &&& cur[j].1.len() == v[j].1.len()
            &&& forall|i: int|
                0 <= i < v[j].1.len() ==> cur[j].1[i] == match last_write(ws, n, v[j].0, i) {
                    Some(b) => b,
                    None => v[j].1[i],
                }
        } by {
            assert(prev[j].0 == v[j].0);
            if prev[j].0 == k {
                assert forall|i: int| 0 <= i < v[j].1.len() implies cur[j].1[i] == match last_write(
                    ws,
                    n,
                    v[j].0,
                    i,
                ) {
                    Some(b) => b,
                    None => v[j].1[i],
                } by {
                    if i == li {
                        if 0 <= li < prev[j].1.len() {
                            assert(cur[j].1[i] == w.3);
                        }
                    } else {
                        assert(cur[j].1[i] == prev[j].1[i]);
                    }
                }
            }
        }
    }
}

/// Two positions with the same section key and cell are the same position
/// (section y taken within the `i8` range).
proof fn lemma_cell_identifies(p: (i32, i32, i32), q: (i32, i32, i32))
    requires
        -2048 <= p.1 < 2048,
        -2048 <= q.1 < 2048,
        section_key(p.0, p.1, p.2) == section_key(q.0, q.1, q.2),
        local_index(p.0, p.1, p.2) == local_index(q.0, q.1, q.2),
    ensures
        p == q,
{
    lemma_shr4(p.0);
    lemma_shr4(p.1);
    lemma_shr4(p.2);
    lemma_shr4(q.0);
    lemma_shr4(q.1);
    lemma_shr4(q.2);
    let (px, py, pz) = p;
    let (qx, qy, qz) = q;
    assert(-2048 <= py < 2048 ==> (py >> 4u32) as i8 as int == (py >> 4u32) as int) by (bit_vector);
    assert(-2048 <= qy < 2048 ==> (qy >> 4u32) as i8 as int == (qy >> 4u32) as int) by (bit_vector);
    let (a1, b1, c1) = (py % 16, pz % 16, px % 16);
    let (a2, b2, c2) = (qy % 16, qz % 16, qx % 16);
    assert(a1 == a2 && b1 == b2 && c1 == c2) by (nonlinear_arith)
        requires
            0 <= a1 < 16,
            0 <= b1 < 16,
            0 <= c1 < 16,
            0 <= a2 < 16,
            0 <= b2 < 16,
            0 <= c2 < 16,
            a1 * 256 + b1 * 16 + c1 == a2 * 256 + b2 * 16 + c2,
    ;
    vstd::arithmetic::div_mod::lemma_fundamental_div_mod(px as int, 16);
    vstd::arithmetic::div_mod::lemma_fundamental_div_mod(qx as int, 16);
    vstd::arithmetic::div_mod::lemma_fundamental_div_mod(py as int, 16);
    vstd::arithmetic::div_mod::lemma_fundamental_div_mod(qy as int, 16);
    vstd::arithmetic::div_mod::lemma_fundamental_div_mod(pz as int, 16);
    vstd::arithmetic::div_mod::lemma_fundamental_div_mod(qz as int, 16);
}

/// With distinct positions, the last write to a cell is the write of the
/// one change at that cell.
proof fn lemma_last_write_of_change(cs: Seq<BlockChange>, forward: bool, n: nat, k: (i32, i32, i8), i: int)
    requires
        n <= cs.len(),
        forall|a: int| 0 <= a < cs.len() ==> -2048 <= (#[trigger] cs[a]).y < 2048,
        forall|a: int, b: int|
            0 <= a < b < cs.len() ==> (cs[a].x, cs[a].y, cs[a].z) != (cs[b].x, cs[b].y, cs[b].z),
    ensures
        last_write(writes(cs, forward), n, k, i) is None <==> forall|a: int|
            0 <= a < n ==> !(section_key(cs[a].x, cs[a].y, cs[a].z) == k && local_index(
                cs[a].x,
                cs[a].y,
                cs[a].z,
            ) == i),
        forall|a: int|
            0 <= a < n && section_key(cs[a].x, cs[a].y, cs[a].z) == k && local_index(
                cs[a].x,
                cs[a].y,
                cs[a].z,
            ) == i ==> last_write(writes(cs, forward), n, k, i) == Some(
                if forward {
                    cs[a].after@
                } else {
                    cs[a].before@
                },
            ),
    decreases n,
{
    if n > 0 {
        lemma_last_write_of_change(cs, forward, (n - 1) as nat, k, i);
        let m = n - 1;
        assert forall|a: int|
            0 <= a < n && section_key(cs[a].x, cs[a].y, cs[a].z) == k && local_index(
                cs[a].x,
                cs[a].y,
                cs[a].z,
            ) == i implies last_write(writes(cs, forward), n, k, i) == Some(
            if forward {
                cs[a].after@
            } else {
                cs[a].before@
            },
        ) by {
            if a < m && section_key(cs[m].x, cs[m].y, cs[m].z) == k && local_index(
                cs[m].x,
                cs[m].y,
                cs[m].z,
            ) == i {
                lemma_cell_identifies((cs[a].x, cs[a].y, cs[a].z), (cs[m].x, cs[m].y, cs[m].z));
            }
        }
    }
}

/// Applying the changes one way and then the other restores the cells
/// when the states of the second pass are what the cells held.
proof fn lemma_apply_then_reverse(s: SectionStore, cs: Seq<BlockChange>, first: bool)
    requires
        s.wf(),
        forall|a: int| 0 <= a < cs.len() ==> s.has_key(section_key(#[trigger] cs[a].x, cs[a].y, cs[a].z)),
        forall|a: int| 0 <= a < cs.len() ==> -2048 <= (#[trigger] cs[a]).y < 2048,
        forall|a: int, b: int|
            0 <= a < b < cs.len() ==> (cs[a].x, cs[a].y, cs[a].z) != (cs[b].x, cs[b].y, cs[b].z),
        forall|a: int, j: int|
            0 <= a < cs.len() && 0 <= j < s.keys@.len() && s.keys@[j] == section_key(
                cs[a].x,
                cs[a].y,
                cs[a].z,
            ) ==> s.sections@[j].cells()[local_index(cs[a].x, cs[a].y, cs[a].z)] == if first {
                cs[a].before@
            } else {
                cs[a].after@
            },
    ensures
        applied(
            applied(s.view_cells(), writes(cs, first), cs.len()),
            writes(cs, !first),
            cs.len(),
        ) == s.view_cells(),
{
    let v = s.view_cells();
    let n = cs.len();
    assert forall|j: int| 0 <= j < v.len() implies (#[trigger] v[j]).1.len() == 4096 by {
        assert(s.sections@[j].wf());
    }
    let f = applied(v, writes(cs, first), n);
    let g = applied(f, writes(cs, !first), n);
    lemma_applied_cells(v, writes(cs, first), n);
    assert forall|j: int| 0 <= j < f.len() implies (#[trigger] f[j]).1.len() == 4096 by {
        assert(f[j].1.len() == v[j].1.len());
    }
    lemma_applied_cells(f, writes(cs, !first), n);
    assert forall|j: int| 0 <= j < v.len() implies #[trigger] g[j] == v[j] by {
        let k = v[j].0;
        assert(s.sections@[j].wf());
        assert forall|i: int| 0 <= i < v[j].1.len() implies g[j].1[i] == v[j].1[i] by {
            lemma_last_write_of_change(cs, first, n, k, i);
            lemma_last_write_of_change(cs, !first, n, k, i);
            if last_write(writes(cs, !first), n, k, i) is Some {
                let a = choose|a: int|
                    0 <= a < n && section_key(cs[a].x, cs[a].y, cs[a].z) == k && local_index(
                        cs[a].x,
                        cs[a].y,
                        cs[a].z,
                    ) == i;
                assert(s.keys@[j] == k);
            }
        }
        assert(g[j].1 =~= v[j].1);
    }
    assert(g =~= v);
}

/// Undoing an edit right after making it gives back every section: when
/// the changes name distinct positions (section y within the `i8` range),
/// each recorded old state is what the cell held, every change's section
/// is in the store, and palettes have room, applying the changes forward
/// and then backward leaves the cells as they were.
pub proof fn law_undo_after_apply_restores(s: SectionStore, cs: Seq<BlockChange>)
    requires
        s.wf(),
        forall|a: int| 0 <= a < cs.len() ==> s.has_key(section_key(#[trigger] cs[a].x, cs[a].y, cs[a].z)),
        forall|a: int| 0 <= a < cs.len() ==> -2048 <= (#[trigger] cs[a]).y < 2048,
        forall|a: int, b: int|
            0 <= a < b < cs.len() ==> (cs[a].x, cs[a].y, cs[a].z) != (cs[b].x, cs[b].y, cs[b].z),
        forall|a: int, j: int|
            0 <= a < cs.len() && 0 <= j < s.keys@.len() && s.keys@[j] == section_key(
                cs[a].x,
                cs[a].y,
                cs[a].z,
            ) ==> s.sections@[j].cells()[local_index(cs[a].x, cs[a].y, cs[a].z)] == cs[a].before@,
    ensures
        applied(
            applied(s.view_cells(), writes(cs, true), cs.len()),
            writes(cs, false),
            cs.len(),
        ) == s.view_cells(),
{
    lemma_apply_then_reverse(s, cs, true);
}

/// Redoing an edit right after undoing it gives back every section: with
/// distinct positions as above, when each recorded new state is what the
/// cell holds, applying the changes backward and then forward leaves the
/// cells as they were.
pub proof fn law_redo_after_undo_restores(s: SectionStore, cs: Seq<BlockChange>)
    requires
        s.wf(),
        forall|a: int| 0 <= a < cs.len() ==> s.has_key(section_key(#[trigger] cs[a].x, cs[a].y, cs[a].z)),
        forall|a: int| 0 <= a < cs.len() ==> -2048 <= (#[trigger] cs[a]).y < 2048,
        forall|a: int, b: int|
            0 <= a < b < cs.len() ==> (cs[a].x, cs[a].y, cs[a].z) != (cs[b].x, cs[b].y, cs[b].z),
        forall|a: int, j: int|
            0 <= a < cs.len() && 0 <= j < s.keys@.len() && s.keys@[j] == section_key(
                cs[a].x,
                cs[a].y,
                cs[a].z,
            ) ==> s.sections@[j].cells()[local_index(cs[a].x, cs[a].y, cs[a].z)] == cs[a].after@,
    ensures
        applied(
            applied(s.view_cells(), writes(cs, false), cs.len()),
            writes(cs, true),
            cs.len(),
        ) == s.view_cells(),
{
    lemma_apply_then_reverse(s, cs, false);
}

} // verus!
