//! Block sections: a palette of states plus 4096 palette indices, their
//! packing into `BitStorage`, and sparse per-cell diffs.

use vstd::prelude::*;
use crate::bitstorage::{decode, low_mask, longs_needed, BitStorage};
use crate::blockstate::{
    compact, compare_chars, is_air_like_view, is_empty_sentinel_view, lemma_seq_lt_total,
    lemma_seq_lt_trans, parse_state, seq_lt,
    BlockState, BlockStateView,
};
use crate::indexset::{index_set_insert_full, index_set_into_vec, index_set_items, index_set_new};
use crate::text::{
    append_str, chars_of, copy_string, int_text, parse_in_range, parse_int_chars, push_int, split,
    split_chars, string_of, views,
};

verus! {

pub const SECTION_SIZE: usize = 4096;

/// `2^b`.
pub open spec fn p2(b: nat) -> nat
    decreases b,
{
    if b == 0 {
        1
    } else {
        2 * p2((b - 1) as nat)
    }
}

/// Smallest `b` with `2^b >= n`.
pub open spec fn ceil_log2(n: nat) -> nat
    decreases n,
{
    if n <= 1 {
        0
    } else {
        1 + ceil_log2(((n + 1) / 2) as nat)
    }
}

/// Block-state bits for a palette of `n` entries: 0 for one entry, at least 4.
pub open spec fn block_bits(n: nat) -> nat {
    let b = ceil_log2(n);
    if b == 0 {
        0
    } else if b <= 4 {
        4
    } else {
        b
    }
}

pub proof fn lemma_ceil_log2(n: nat, k: nat)
    ensures
        n <= p2(ceil_log2(n)),
        n <= p2(k) ==> ceil_log2(n) <= k,
        n >= 2 ==> ceil_log2(n) >= 1,
        n >= 1 && ceil_log2(n) > 0 ==> p2((ceil_log2(n) - 1) as nat) < n,
    decreases n,
{
    if n > 1 {
        let h = ((n + 1) / 2) as nat;
        if k > 0 {
            lemma_ceil_log2(h, (k - 1) as nat);
        } else {
            lemma_ceil_log2(h, 0);
            lemma_p2_pos(0);
        }
    }
}

pub proof fn lemma_p2_pos(b: nat)
    ensures
        p2(b) >= 1,
    decreases b,
{
    if b > 0 {
        lemma_p2_pos((b - 1) as nat);
    }
}

pub proof fn lemma_p2_monotone(a: nat, b: nat)
    requires
        a <= b,
    ensures
        p2(a) <= p2(b),
    decreases b,
{
    if a < b {
        lemma_p2_monotone(a, (b - 1) as nat);
        lemma_p2_pos((b - 1) as nat);
    }
}

pub proof fn lemma_shl_is_p2(b: nat)
    requires
        b <= 32,
    ensures
        (1u64 << (b as u64)) as nat == p2(b),
        low_mask(b) as nat == p2(b) - 1,
    decreases b,
{
    if b == 0 {
        assert(1u64 << 0u64 == 1) by (bit_vector);
    } else {
        lemma_shl_is_p2((b - 1) as nat);
        let c = (b - 1) as u64;
        assert(c < 32 ==> 1u64 << ((c + 1) as u64) == 2 * (1u64 << c)) by (bit_vector);
    }
    let bb = b as u64;
    assert(bb <= 32 ==> 1u64 << bb >= 1) by (bit_vector);
}

fn ceil_log2_exec(n: usize) -> (r: u8)
    ensures
        r as nat == ceil_log2(n as nat),
    decreases n,
{
    if n <= 1 {
        0
    } else {
        let h = (n / 2) + (n % 2);
        assert(h == (n + 1) / 2);
        let r = ceil_log2_exec(h);
        proof {
            lemma_ceil_log2(h as nat, 63);
            lemma_p2_monotone(63, 64);
            lemma_big_p2();
        }
        r + 1
    }
}

proof fn lemma_big_p2()
    ensures
        p2(63) > usize::MAX / 2,
{
    reveal_with_fuel(p2, 64);
    assert(p2(63) == 0x8000_0000_0000_0000);
}

/// Vanilla block-state bits for a palette of `size` entries.
pub fn block_bits_for_palette_size(size: usize) -> (r: u8)
    ensures
        r as nat == block_bits(size as nat),
{
    match ceil_log2_exec(size) {
        0 => 0,
        1 | 2 | 3 | 4 => 4,
        b => b,
    }
}

/// The cell position `index` computes: `((y << 4 | z) << 4) | x`.
pub open spec fn index_spec(x: u8, y: u8, z: u8) -> usize {
    ((((y as usize) << 4usize) | (z as usize)) << 4usize) | (x as usize)
}

pub proof fn lemma_index_small(x: u8, y: u8, z: u8)
    requires
        x < 16,
        y < 16,
        z < 16,
    ensures
        index_spec(x, y, z) == y * 256 + z * 16 + x,
        index_spec(x, y, z) < 4096,
{
    let (a, b, c) = (x as usize, y as usize, z as usize);
    assert(a < 16 && b < 16 && c < 16 ==> ((((b << 4usize) | c) << 4usize) | a) == b * 256 + c
        * 16 + a) by (bit_vector);
}

/// Compact section: palette + 4096 palette indices.
#[derive(Clone, Debug)]
pub struct SectionBlocks {
    pub palette: Vec<BlockState>,
    pub indices: Vec<u16>,
}

impl SectionBlocks {
    /// 4096 indices, each naming a palette entry; the palette fits `u16` ids.
    pub open spec fn wf(&self) -> bool {
        &&& self.indices@.len() == 4096
        &&& 1 <= self.palette@.len() <= 65536
        &&& forall|i: int| 0 <= i < 4096 ==> (#[trigger] self.indices@[i] as int)
            < self.palette@.len()
    }

    /// The state of each of the 4096 cells.
    pub open spec fn cells(&self) -> Seq<BlockStateView> {
        Seq::new(4096, |i: int| self.palette@[self.indices@[i] as int]@)
    }

    /// Every cell holds `state`.
    pub fn filled(state: BlockState) -> (r: Self)
        ensures
            r.wf(),
            r.cells() == Seq::new(4096, |i: int| state@),
            r.palette@.len() == 1,
            r.palette@[0]@ == state@,
    {
        let r = SectionBlocks { palette: vec![state], indices: vec![0u16; SECTION_SIZE] };
        assert(r.cells() =~= Seq::new(4096, |i: int| state@));
        r
    }

    /// Every cell holds `minecraft:air`.
    pub fn air() -> (r: Self)
        ensures
            r.wf(),
            r.cells() == Seq::new(
                4096,
                |i: int| BlockStateView { name: "minecraft:air"@, props: seq![] },
            ),
            r.palette@.len() == 1,
    {
        let a = BlockState::air();
        assert(a@ =~= BlockStateView { name: "minecraft:air"@, props: seq![] });
        Self::filled(a)
    }

    /// `((y << 4 | z) << 4) | x`.
    pub fn index(x: u8, y: u8, z: u8) -> (r: usize)
        ensures
            r == index_spec(x, y, z),
            x < 16 && y < 16 && z < 16 ==> r == y * 256 + z * 16 + x,
    {
        proof {
            if x < 16 && y < 16 && z < 16 {
                lemma_index_small(x, y, z);
            }
        }
        ((((y as usize) << 4usize) | (z as usize)) << 4usize) | (x as usize)
    }

    /// The state at a cell.
    pub fn get(&self, x: u8, y: u8, z: u8) -> (r: &BlockState)
        requires
            self.wf(),
            index_spec(x, y, z) < 4096,
        ensures
            r@ == self.cells()[index_spec(x, y, z) as int],
    {
        let id = self.indices[Self::index(x, y, z)] as usize;
        &self.palette[id]
    }

    /// Sets a cell, reusing an equal palette entry or appending one. With a
    /// full palette (65536 entries) and a new state, nothing changes.
    #[verifier::loop_isolation(false)]
    pub fn set(&mut self, x: u8, y: u8, z: u8, state: BlockState)
        requires
            old(self).wf(),
            index_spec(x, y, z) < 4096,
        ensures
            final(self).wf(),
            old(self).palette@.len() < 65536 ==> final(self).cells() == old(self).cells().update(
                index_spec(x, y, z) as int,
                state@,
            ),
            old(self).palette@.len() == 65536 ==> final(self).cells() == old(self).cells()
                || final(self).cells() == old(self).cells().update(
                index_spec(x, y, z) as int,
                state@,
            ),
            final(self).palette@.len() >= old(self).palette@.len(),
            final(self).palette@.len() <= old(self).palette@.len() + 1,
            forall|j: int|
                0 <= j < old(self).palette@.len() ==> (#[trigger] final(self).palette@[j])@
                    == old(self).palette@[j]@,
            (exists|j: int| 0 <= j < old(self).palette@.len() && (#[trigger] old(self).palette@[j])@
                == state@) ==> final(self).palette@.len() == old(self).palette@.len(),
            (forall|j: int| 0 <= j < old(self).palette@.len() ==> (#[trigger] old(self).palette@[j])@
                != state@) && old(self).palette@.len() == 65536 ==> final(self).cells() == old(self).cells()
                && final(self).palette@.len() == old(self).palette@.len(),
            (forall|j: int| 0 <= j < old(self).palette@.len() ==> (#[trigger] old(self).palette@[j])@
                != state@) && old(self).palette@.len() < 65536 ==> final(self).palette@.len()
                == old(self).palette@.len() + 1 && final(self).palette@[old(self).palette@.len() as int]@
                == state@,
    {
        let idx = Self::index(x, y, z);
        let mut p: usize = 0;
        let mut found = false;
        while p < self.palette.len()
            invariant
                p <= self.palette@.len(),
                forall|j: int| 0 <= j < p ==> self.palette@[j]@ != state@,
                found ==> p < self.palette@.len() && self.palette@[p as int]@ == state@,
            decreases self.palette.len() - p - (if found { 1int } else { 0int }),
        {
            if self.palette[p].same(&state) {
                found = true;
                break;
            }
            p += 1;
        }
        if found {
            self.indices.set(idx, p as u16);
            proof {
                assert(self.cells() =~= old(self).cells().update(idx as int, state@));
            }
        } else {
            let pos = self.palette.len();
            if pos <= 65535 {
                self.palette.push(state);
                self.indices.set(idx, pos as u16);
                proof {
                    assert forall|i: int| 0 <= i < 4096 implies (#[trigger] self.indices@[i] as int)
                        < self.palette@.len() by {
                        if i != idx {
                            assert(self.indices@[i] == old(self).indices@[i]);
                        }
                    }
                    assert forall|i: int| 0 <= i < 4096 && i != idx implies self.palette@[
                        self.indices@[i] as int] == old(self).palette@[old(self).indices@[
                        i] as int] by {
                        assert(self.indices@[i] == old(self).indices@[i]);
                    }
                    assert(self.cells() =~= old(self).cells().update(idx as int, state@));
                }
            }
        }
    }

    /// Builds a section from palette states and packed indices. One state,
    /// or no (or empty) data, fills the section with the first state.
    #[verifier::loop_isolation(false)]
    pub fn from_palette_states(states: Vec<BlockState>, data: Option<&[i64]>) -> (r: Result<
        Self,
        String,
    >)
        ensures
            match r {
                Ok(s) => {
                    &&& s.wf()
                    &&& states@.len() >= 1
                    &&& s.palette@.len() <= states@.len()
                    &&& !(states@.len() == 1 || data is None || data.unwrap()@.len() == 0)
                        ==> states@.len() <= 65536
                    &&& (states@.len() == 1 || data is None || data.unwrap()@.len() == 0)
                        ==> s.cells() == Seq::new(4096, |i: int| states@[0]@)
                    &&& !(states@.len() == 1 || data is None || data.unwrap()@.len() == 0) ==> {
                        let bits = block_bits(states@.len() as nat);
                        let d = data.unwrap()@;
                        &&& d.len() == longs_needed(bits, 4096)
                        &&& forall|i: int|
                            0 <= i < 4096 ==> (decode(bits, 4096, d)[i] as int) < states@.len()
                        &&& s.cells() == Seq::new(
                            4096,
                            |i: int| states@[decode(bits, 4096, d)[i] as int]@,
                        )
                    }
                },
                Err(_) => {
                    ||| states@.len() == 0
                    ||| !(states@.len() == 1 || data is None || data.unwrap()@.len() == 0) && {
                        let bits = block_bits(states@.len() as nat);
                        let d = data.unwrap()@;
                        ||| d.len() != longs_needed(bits, 4096)
                        ||| states@.len() > 65536
                        ||| exists|i: int|
                            0 <= i < 4096 && (decode(bits, 4096, d)[i] as int) >= states@.len()
                    }
                },
            },
    {
        if states.len() == 0 {
            return Err(string_of(&chars_of("empty section palette")));
        }
        let single = match data {
            None => true,
            Some(d) => d.len() == 0,
        };
        if states.len() == 1 || single {
            let first = states[0].duplicate();
            return Ok(Self::filled(first));
        }
        if states.len() > 65536 {
            return Err(string_of(&chars_of("section palette too large")));
        }
        let bits = block_bits_for_palette_size(states.len());
        proof {
            lemma_ceil_log2(states@.len() as nat, 16);
            lemma_p2_16();
        }
        let raw = match data {
            Some(d) => d,
            None => {
                assert(false);
                return Err(string_of(&chars_of("missing section data")));
            },
        };
        let mut raw_vec: Vec<i64> = Vec::new();
        let mut k: usize = 0;
        while k < raw.len()
            invariant
                k <= raw@.len(),
                raw_vec@ == raw@.take(k as int),
            decreases raw.len() - k,
        {
            raw_vec.push(raw[k]);
            k += 1;
            assert(raw_vec@ =~= raw@.take(k as int));
        }
        assert(raw@.take(raw@.len() as int) =~= raw@);
        let storage = match BitStorage::from_raw(bits, SECTION_SIZE, raw_vec) {
            Ok(s) => s,
            Err(e) => return Err(e),
        };
        let mut indices: Vec<u16> = Vec::new();
        let mut i: usize = 0;
        while i < SECTION_SIZE
            invariant
                storage.wf(),
                storage@ == decode(bits as nat, 4096, raw@),
                2 <= states@.len() <= 65536,
                i <= 4096,
                indices@.len() == i,
                forall|j: int| 0 <= j < i ==> indices@[j] as int == storage@[j] as int,
                forall|j: int| 0 <= j < i ==> (storage@[j] as int) < states@.len(),
            decreases SECTION_SIZE - i,
        {
            let id = storage.get(i);
            if id as usize >= states.len() {
                assert(decode(bits as nat, 4096, raw@)[i as int] as int >= states@.len());
                let mut msg = chars_of("palette index ");
                push_int(&mut msg, id as i64);
                append_str(&mut msg, " out of range");
                return Err(string_of(&msg));
            }
            indices.push(id as u16);
            i += 1;
        }
        let r = SectionBlocks { palette: states, indices };
        proof {
            assert(r.cells() =~= Seq::new(
                4096,
                |i: int| r.palette@[decode(bits as nat, 4096, raw@)[i] as int]@,
            ));
        }
        Ok(r)
    }

    /// The palette of states in first-use order (entries no cell uses are
    /// dropped, and equal texts merged), each state re-read from its
    /// compact text, and the packed indices (`None` for a single state).
    #[verifier::loop_isolation(false)]
    pub fn to_palette_states(&self) -> (r: Result<(Vec<BlockState>, Option<Vec<i64>>), String>)
        requires
            self.wf(),
        ensures
            match r {
                Ok((states, data)) => {
                    let keys = used_keys(self.cells());
                    &&& states@.len() == keys.len()
                    &&& forall|k: int|
                        0 <= k < keys.len() ==> parse_state(keys[k]) == Ok::<
                            BlockStateView,
                            Seq<char>,
                        >(#[trigger] states@[k]@)
                    &&& (data is None <==> block_bits(keys.len()) == 0)
                    &&& data is Some ==> decode(block_bits(keys.len()), 4096, data.unwrap()@)
                        == Seq::new(4096, |i: int| key_index(keys, compact(self.cells()[i])) as u32)
                    &&& data is Some ==> data.unwrap()@.len() == longs_needed(block_bits(keys.len()), 4096)
                },
                Err(_) => exists|k: int|
                    0 <= k < used_keys(self.cells()).len() && parse_state(
                        used_keys(self.cells())[k],
                    ) is Err,
            },
    {
        let mut used = index_set_new();
        let mut ids: Vec<u32> = Vec::new();
        let mut i: usize = 0;
        while i < SECTION_SIZE
            invariant
                self.wf(),
                i <= 4096,
                ids@.len() == i,
                index_set_items(used) == used_keys(self.cells().take(i as int)),
                index_set_items(used).len() <= i,
                forall|j: int| 0 <= j < i ==> (ids@[j] as int) < index_set_items(used).len(),
                forall|j: int|
                    0 <= j < i ==> index_set_items(used)[ids@[j] as int] == compact(
                        self.cells()[j],
                    ),
            decreases SECTION_SIZE - i,
        {
            let id = self.indices[i] as usize;
            let key = self.palette[id].to_compact();
            let ghost before = index_set_items(used);
            let ghost key_v = key@;
            let (idx, _) = index_set_insert_full(&mut used, key);
            proof {
                assert(self.cells()[i as int] == self.palette@[id as int]@);
                assert(self.cells().take(i + 1).drop_last() =~= self.cells().take(i as int));
                assert(self.cells().take(i + 1).last() == self.cells()[i as int]);
                lemma_used_keys_contains(self.cells().take(i as int), key_v);
            }
            ids.push(idx as u32);
            i += 1;
        }
        assert(self.cells().take(4096) =~= self.cells());
        let ghost keys = index_set_items(used);
        proof {
            lemma_used_keys_distinct(self.cells());
            assert forall|j: int| 0 <= j < 4096 implies ids@[j] as int == key_index(
                keys,
                compact(self.cells()[j]),
            ) by {
                lemma_key_index_of_distinct(keys, ids@[j] as int);
            }
        }
        let texts = index_set_into_vec(used);
        let mut states: Vec<BlockState> = Vec::new();
        let mut k: usize = 0;
        while k < texts.len()
            invariant
                k <= texts@.len(),
                texts@.map_values(|x: String| x@) == keys,
                states@.len() == k,
                forall|j: int|
                    0 <= j < k ==> parse_state(keys[j]) == Ok::<BlockStateView, Seq<char>>(
                        #[trigger] states@[j]@,
                    ),
            decreases texts.len() - k,
        {
            assert(texts@[k as int]@ == keys[k as int]);
            match BlockState::parse(texts[k].as_str()) {
                Ok(b) => states.push(b),
                Err(e) => return Err(e),
            }
            k += 1;
        }
        let bits = block_bits_for_palette_size(states.len());
        if bits == 0 {
            return Ok((states, None));
        }
        proof {
            lemma_ceil_log2(keys.len(), 12);
            lemma_p2_12();
            lemma_used_keys_len(self.cells());
            lemma_shl_is_p2(bits as nat);
            lemma_ceil_log2(keys.len(), 0);
            assert forall|j: int| 0 <= j < ids@.len() implies (ids@[j] as u64) <= low_mask(
                bits as nat,
            ) by {
                lemma_p2_monotone(ceil_log2(keys.len()), bits as nat);
            }
        }
        let storage = BitStorage::pack_values(bits, ids.as_slice());
        assert(keys.len() == states@.len());
        proof {
            assert(storage@ =~= Seq::new(
                4096,
                |i: int| key_index(keys, compact(self.cells()[i])) as u32,
            ));
        }
        Ok((states, Some(storage.into_raw())))
    }

    /// Count of cells that are not air-like.
    pub fn non_air_total(&self) -> (r: usize)
        requires
            self.wf(),
        ensures
            r == count_non_air(self.cells()),
    {
        let mut total: usize = 0;
        let mut i: usize = 0;
        while i < SECTION_SIZE
            invariant
                self.wf(),
                i <= 4096,
                total == count_non_air(self.cells().take(i as int)),
                total <= i,
            decreases SECTION_SIZE - i,
        {
            let b = &self.palette[self.indices[i] as usize];
            assert(self.cells().take(i + 1).drop_last() =~= self.cells().take(i as int));
            if !b.is_air_like() {
                total += 1;
            }
            i += 1;
        }
        assert(self.cells().take(4096) =~= self.cells());
        total
    }
}

proof fn lemma_p2_16()
    ensures
        p2(16) == 65536,
{
    reveal_with_fuel(p2, 17);
}

pub proof fn lemma_p2_12()
    ensures
        p2(12) == 4096,
{
    reveal_with_fuel(p2, 13);
}

/// Number of cells that are not air-like.
pub open spec fn count_non_air(cells: Seq<BlockStateView>) -> nat
    decreases cells.len(),
{
    if cells.len() == 0 {
        0
    } else {
        count_non_air(cells.drop_last()) + if crate::blockstate::is_air_like_view(cells.last()) {
            0nat
        } else {
            1nat
        }
    }
}

/// At most every cell is counted as non-air.
pub proof fn lemma_count_non_air_le(cells: Seq<BlockStateView>)
    ensures
        count_non_air(cells) <= cells.len(),
    decreases cells.len(),
{
    if cells.len() > 0 {
        lemma_count_non_air_le(cells.drop_last());
    }
}

/// The distinct compact texts of the cells, in first-use order.
pub open spec fn used_keys(cells: Seq<BlockStateView>) -> Seq<Seq<char>>
    decreases cells.len(),
{
    if cells.len() == 0 {
        seq![]
    } else {
        let prev = used_keys(cells.drop_last());
        let k = compact(cells.last());
        if prev.contains(k) {
            prev
        } else {
            prev.push(k)
        }
    }
}

/// Position of `k` in `keys` (the first, -1 when absent).
pub open spec fn key_index(keys: Seq<Seq<char>>, k: Seq<char>) -> int
    decreases keys.len(),
{
    if keys.len() == 0 {
        -1
    } else if keys.last() == k && !keys.drop_last().contains(k) {
        keys.len() - 1
    } else {
        key_index(keys.drop_last(), k)
    }
}

pub proof fn lemma_used_keys_contains(cells: Seq<BlockStateView>, k: Seq<char>)
    ensures
        used_keys(cells).contains(k) <==> exists|i: int|
            0 <= i < cells.len() && compact(cells[i]) == k,
    decreases cells.len(),
{
    if cells.len() > 0 {
        let pc = cells.drop_last();
        lemma_used_keys_contains(pc, k);
        let prev = used_keys(pc);
        let kk = compact(cells.last());
        let cur = used_keys(cells);
        assert(cur == if prev.contains(kk) { prev } else { prev.push(kk) });
        assert forall|j: int| 0 <= j < prev.len() implies cur[j] == prev[j] by {
            if !prev.contains(kk) {
                assert(prev.push(kk)[j] == prev[j]);
            }
        }
        if cur.contains(k) {
            let j = choose|j: int| 0 <= j < cur.len() && cur[j] == k;
            if j < prev.len() {
                assert(prev[j] == k);
                assert(prev.contains(k));
                let i = choose|i: int| 0 <= i < pc.len() && compact(pc[i]) == k;
                assert(pc[i] == cells[i]);
            } else {
                assert(cur == prev.push(kk));
                assert(k == kk);
                assert(compact(cells[cells.len() - 1]) == k);
            }
        }
        if exists|i: int| 0 <= i < cells.len() && compact(cells[i]) == k {
            let i = choose|i: int| 0 <= i < cells.len() && compact(cells[i]) == k;
            if i < cells.len() - 1 {
                assert(pc[i] == cells[i]);
                assert(prev.contains(k));
                let j = choose|j: int| 0 <= j < prev.len() && prev[j] == k;
                assert(cur[j] == k);
            } else {
                assert(kk == k);
                if prev.contains(k) {
                    let j = choose|j: int| 0 <= j < prev.len() && prev[j] == k;
                    assert(cur[j] == k);
                } else {
                    assert(cur[prev.len() as int] == k);
                }
            }
        }
    }
}

pub proof fn lemma_used_keys_len(cells: Seq<BlockStateView>)
    ensures
        used_keys(cells).len() <= cells.len(),
    decreases cells.len(),
{
    if cells.len() > 0 {
        lemma_used_keys_len(cells.drop_last());
    }
}

pub proof fn lemma_used_keys_distinct(cells: Seq<BlockStateView>)
    ensures
        forall|a: int, b: int|
            0 <= a < b < used_keys(cells).len() ==> used_keys(cells)[a] != used_keys(cells)[b],
    decreases cells.len(),
{
    if cells.len() > 0 {
        lemma_used_keys_distinct(cells.drop_last());
        let prev = used_keys(cells.drop_last());
        let k = compact(cells.last());
        if !prev.contains(k) {
            assert forall|a: int, b: int|
                0 <= a < b < used_keys(cells).len() implies used_keys(cells)[a] != used_keys(
                cells,
            )[b] by {
                if b == prev.len() {
                    assert(prev[a] != k);
                }
            }
        }
    }
}

pub proof fn lemma_key_index_of_distinct(keys: Seq<Seq<char>>, j: int)
    requires
        0 <= j < keys.len(),
        forall|a: int, b: int| 0 <= a < b < keys.len() ==> keys[a] != keys[b],
    ensures
        key_index(keys, keys[j]) == j,
    decreases keys.len(),
{
    if j == keys.len() - 1 {
        assert(!keys.drop_last().contains(keys[j]));
    } else {
        assert(keys.drop_last()[j] == keys[j]);
        lemma_key_index_of_distinct(keys.drop_last(), j);
    }
}

/// The text key `x,y,z` of a cell.
pub open spec fn cell_key(x: u8, y: u8, z: u8) -> Seq<char> {
    int_text(x as int) + seq![','] + int_text(y as int) + seq![','] + int_text(z as int)
}

/// Inserting into a key-ordered cell list: an equal key is replaced,
/// otherwise the entry goes before the first greater key.
pub open spec fn cells_insert(p: Seq<(Seq<char>, BlockStateView)>, k: Seq<char>, v: BlockStateView) -> Seq<
    (Seq<char>, BlockStateView),
>
    decreases p.len(),
{
    if p.len() == 0 {
        seq![(k, v)]
    } else if p[0].0 == k {
        seq![(k, v)] + p.drop_first()
    } else if seq_lt(k, p[0].0) {
        seq![(k, v)] + p
    } else {
        seq![p[0]] + cells_insert(p.drop_first(), k, v)
    }
}

/// Coordinate `n` of a cell key: the `n`-th comma-separated piece read as a
/// `u8`, 0 when missing or unreadable.
pub open spec fn key_coord(key: Seq<char>, n: int) -> u8 {
    let parts = split(key, ',');
    if n < parts.len() {
        match parse_in_range(parts[n], false, 0, 255) {
            Some(v) => v as u8,
            None => 0,
        }
    } else {
        0
    }
}

/// The cell position a key names.
pub open spec fn key_index_spec(key: Seq<char>) -> usize {
    index_spec(key_coord(key, 0), key_coord(key, 1), key_coord(key, 2))
}

/// The cells after applying diff entries in key order (void-air entries
/// are skipped), with the number of cells that changed.
pub open spec fn apply_cells(cells: Seq<BlockStateView>, diff: Seq<(Seq<char>, BlockStateView)>) -> (
    Seq<BlockStateView>,
    nat,
)
    decreases diff.len(),
{
    if diff.len() == 0 {
        (cells, 0)
    } else {
        let (c, n) = apply_cells(cells, diff.drop_last());
        let (k, s) = diff.last();
        let i = key_index_spec(k) as int;
        if is_empty_sentinel_view(s) || c[i] == s {
            (c, n)
        } else {
            (c.update(i, s), n + 1)
        }
    }
}

/// Sparse section diff keyed by `x,y,z`, kept in increasing key order with
/// each key once, as a sorted map holds it. Cells set to void_air are
/// skipped when applied (keep the existing block).
#[derive(Debug)]
pub struct SectionDiff {
    cells: Vec<(String, BlockState)>,
}

pub open spec fn diff_view(c: Seq<(String, BlockState)>) -> Seq<(Seq<char>, BlockStateView)> {
    c.map_values(|e: (String, BlockState)| (e.0@, e.1@))
}

/// Cell keys in strictly increasing order, so each key occurs once.
pub open spec fn cell_keys_ascending(d: Seq<(Seq<char>, BlockStateView)>) -> bool {
    forall|i: int, j: int| 0 <= i < j < d.len() ==> seq_lt(#[trigger] d[i].0, #[trigger] d[j].0)
}

/// Every key of an insertion result stays above a bound that the old keys
/// and the new key are above.
proof fn lemma_cells_insert_above(
    p: Seq<(Seq<char>, BlockStateView)>,
    k: Seq<char>,
    v: BlockStateView,
    x: Seq<char>,
)
    requires
        forall|i: int| 0 <= i < p.len() ==> seq_lt(x, #[trigger] p[i].0),
        seq_lt(x, k),
    ensures
        forall|i: int|
            0 <= i < cells_insert(p, k, v).len() ==> seq_lt(x, #[trigger] cells_insert(p, k, v)[i].0),
    decreases p.len(),
{
    let r = cells_insert(p, k, v);
    if p.len() == 0 {
    } else if p[0].0 == k {
        assert forall|i: int| 0 <= i < r.len() implies seq_lt(x, #[trigger] r[i].0) by {
            if i > 0 {
                assert(r[i] == p[i]);
            }
        }
    } else if seq_lt(k, p[0].0) {
        assert forall|i: int| 0 <= i < r.len() implies seq_lt(x, #[trigger] r[i].0) by {
            if i > 0 {
                assert(r[i] == p[i - 1]);
            }
        }
    } else {
        let t = p.drop_first();
        assert forall|i: int| 0 <= i < t.len() implies seq_lt(x, #[trigger] t[i].0) by {
            assert(t[i] == p[i + 1]);
        }
        lemma_cells_insert_above(t, k, v, x);
        let rt = cells_insert(t, k, v);
        assert forall|i: int| 0 <= i < r.len() implies seq_lt(x, #[trigger] r[i].0) by {
            if i > 0 {
                assert(r[i] == rt[i - 1]);
            }
        }
    }
}

/// Inserting into a cell list with ascending keys keeps them ascending.
pub proof fn lemma_cells_insert_ascending(
    p: Seq<(Seq<char>, BlockStateView)>,
    k: Seq<char>,
    v: BlockStateView,
)
    requires
        cell_keys_ascending(p),
    ensures
        cell_keys_ascending(cells_insert(p, k, v)),
    decreases p.len(),
{
    let r = cells_insert(p, k, v);
    if p.len() == 0 {
    } else if p[0].0 == k {
        assert forall|i: int| 0 <= i < r.len() implies #[trigger] r[i].0 == p[i].0 by {
            if i > 0 {
                assert(r[i] == p[i]);
            }
        }
        assert forall|i: int, j: int| 0 <= i < j < r.len() implies seq_lt(
            #[trigger] r[i].0,
            #[trigger] r[j].0,
        ) by {
            assert(r[i].0 == p[i].0 && r[j].0 == p[j].0);
        }
    } else if seq_lt(k, p[0].0) {
        assert forall|i: int, j: int| 0 <= i < j < r.len() implies seq_lt(
            #[trigger] r[i].0,
            #[trigger] r[j].0,
        ) by {
            assert(r[j] == p[j - 1]);
            if i == 0 {
                if j > 1 {
                    assert(seq_lt(p[0].0, p[j - 1].0));
                    lemma_seq_lt_trans(k, p[0].0, p[j - 1].0);
                }
            } else {
                assert(r[i] == p[i - 1]);
                assert(seq_lt(p[i - 1].0, p[j - 1].0));
            }
        }
    } else {
        lemma_seq_lt_total(k, p[0].0);
        let t = p.drop_first();
        assert forall|i: int, j: int| 0 <= i < j < t.len() implies seq_lt(
            #[trigger] t[i].0,
            #[trigger] t[j].0,
        ) by {
            assert(t[i] == p[i + 1] && t[j] == p[j + 1]);
            assert(seq_lt(p[i + 1].0, p[j + 1].0));
        }
        assert forall|i: int| 0 <= i < t.len() implies seq_lt(p[0].0, #[trigger] t[i].0) by {
            assert(t[i] == p[i + 1]);
            assert(seq_lt(p[0].0, p[i + 1].0));
        }
        lemma_cells_insert_ascending(t, k, v);
        lemma_cells_insert_above(t, k, v, p[0].0);
        let rt = cells_insert(t, k, v);
        assert forall|i: int, j: int| 0 <= i < j < r.len() implies seq_lt(
            #[trigger] r[i].0,
            #[trigger] r[j].0,
        ) by {
            assert(r[j] == rt[j - 1]);
            if i == 0 {
                assert(r[0] == p[0]);
                assert(seq_lt(p[0].0, rt[j - 1].0));
            } else {
                assert(r[i] == rt[i - 1]);
                assert(seq_lt(rt[i - 1].0, rt[j - 1].0));
            }
        }
    }
}

/// A prefix of a diff changes no more cells than the whole diff.
proof fn lemma_apply_count_prefix(cells: Seq<BlockStateView>, diff: Seq<(Seq<char>, BlockStateView)>, i: int)
    requires
        0 <= i <= diff.len(),
    ensures
        apply_cells(cells, diff.take(i)).1 <= apply_cells(cells, diff).1,
    decreases diff.len(),
{
    if i < diff.len() {
        assert(diff.drop_last().take(i) =~= diff.take(i));
        lemma_apply_count_prefix(cells, diff.drop_last(), i);
    } else {
        assert(diff.take(i) =~= diff);
    }
}

/// Applying a diff changes at most one cell per entry, so the palette
/// grows by at most the diff's length.
pub proof fn law_apply_count_le_len(cells: Seq<BlockStateView>, diff: Seq<(Seq<char>, BlockStateView)>)
    ensures
        apply_cells(cells, diff).1 <= diff.len(),
    decreases diff.len(),
{
    if diff.len() > 0 {
        law_apply_count_le_len(cells, diff.drop_last());
    }
}

impl SectionDiff {
    #[verifier::type_invariant]
    closed spec fn keys_sorted(self) -> bool {
        cell_keys_ascending(diff_view(self.cells@))
    }
}

impl View for SectionDiff {
    type V = Seq<(Seq<char>, BlockStateView)>;

    closed spec fn view(&self) -> Seq<(Seq<char>, BlockStateView)> {
        diff_view(self.cells@)
    }
}

impl Clone for SectionDiff {
    fn clone(&self) -> (r: Self)
        ensures
            r@ == self@,
    {
        proof {
            use_type_invariant(self);
        }
        let mut out: Vec<(String, BlockState)> = Vec::new();
        let mut i: usize = 0;
        while i < self.cells.len()
            invariant
                i <= self.cells@.len(),
                diff_view(out@) == diff_view(self.cells@).take(i as int),
            decreases self.cells.len() - i,
        {
            let ghost o = out@;
            out.push((copy_string(&self.cells[i].0), self.cells[i].1.duplicate()));
            assert(diff_view(out@) =~= diff_view(o).push(diff_view(self.cells@)[i as int]));
            i += 1;
            assert(diff_view(self.cells@).take(i as int) =~= diff_view(self.cells@).take(i - 1).push(
                diff_view(self.cells@)[i - 1],
            ));
        }
        assert(diff_view(self.cells@).take(self.cells@.len() as int) =~= diff_view(self.cells@));
        SectionDiff { cells: out }
    }
}

impl SectionDiff {
    /// An empty diff.
    pub fn new() -> (r: Self)
        ensures
            r@.len() == 0,
    {
        SectionDiff { cells: Vec::new() }
    }

    /// The entries, in increasing key order with each key once.
    pub fn entries(&self) -> (r: &Vec<(String, BlockState)>)
        ensures
            diff_view(r@) == self@,
            cell_keys_ascending(self@),
    {
        proof {
            use_type_invariant(self);
        }
        &self.cells
    }

    /// Records `state` for cell `x,y,z`, replacing an earlier entry for it.
    pub fn set(&mut self, x: u8, y: u8, z: u8, state: BlockState)
        ensures
            final(self)@ == cells_insert(old(self)@, cell_key(x, y, z), state@),
            cell_keys_ascending(final(self)@),
    {
        proof {
            use_type_invariant(&*self);
        }
        let mut key: Vec<char> = Vec::new();
        push_int(&mut key, x as i64);
        key.push(',');
        push_int(&mut key, y as i64);
        key.push(',');
        push_int(&mut key, z as i64);
        assert(key@ =~= cell_key(x, y, z));
        let mut old_cells: Vec<(String, BlockState)> = Vec::new();
        std::mem::swap(&mut old_cells, &mut self.cells);
        proof {
            lemma_cells_insert_ascending(diff_view(old_cells@), key@, state@);
        }
        self.cells = insert_cell(old_cells, key, state);
    }

    /// Applies the diff in key order and returns how many cells changed.
    /// The palette gains at most one entry per changed cell, and needs room
    /// for that many.
    pub fn apply_to(&self, section: &mut SectionBlocks) -> (changed: usize)
        requires
            old(section).wf(),
            forall|j: int| 0 <= j < self@.len() ==> key_index_spec(#[trigger] self@[j].0) < 4096,
            old(section).palette@.len() + apply_cells(old(section).cells(), self@).1 <= 65536,
        ensures
            final(section).wf(),
            (final(section).cells(), changed as nat) == apply_cells(old(section).cells(), self@),
            final(section).palette@.len() <= old(section).palette@.len() + changed,
    {
        let ghost dv = diff_view(self.cells@);
        let mut changed: usize = 0;
        let mut i: usize = 0;
        while i < self.cells.len()
            invariant
                section.wf(),
                i <= self.cells@.len(),
                dv == diff_view(self.cells@),
                dv == self@,
                section.palette@.len() <= old(section).palette@.len() + changed,
                old(section).palette@.len() + apply_cells(old(section).cells(), dv).1 <= 65536,
                forall|j: int| 0 <= j < dv.len() ==> key_index_spec(#[trigger] dv[j].0) < 4096,
                (section.cells(), changed as nat) == apply_cells(old(section).cells(), dv.take(i as int)),
                changed <= i,
            decreases self.cells.len() - i,
        {
            assert(dv.take(i + 1).drop_last() =~= dv.take(i as int));
            assert(dv.take(i + 1).last() == (self.cells@[i as int].0@, self.cells@[i as int].1@));
            let state = &self.cells[i].1;
            if !state.is_empty_sentinel() {
                let (x, y, z) = parse_local(&self.cells[i].0);
                assert(key_index_spec(dv[i as int].0) < 4096);
                if !section.get(x, y, z).same(state) {
                    proof {
                        lemma_apply_count_prefix(old(section).cells(), dv, i + 1);
                    }
                    section.set(x, y, z, state.duplicate());
                    changed += 1;
                    assert(section.cells() == apply_cells(old(section).cells(), dv.take(i + 1)).0);
                }
            }
            i += 1;
        }
        assert(dv.take(self.cells@.len() as int) =~= dv);
        changed
    }

    /// For every cell the diff names, the section's current state there.
    pub fn capture_before(&self, section: &SectionBlocks) -> (r: SectionDiff)
        requires
            section.wf(),
            forall|j: int| 0 <= j < self@.len() ==> key_index_spec(#[trigger] self@[j].0) < 4096,
        ensures
            r@.len() == self@.len(),
            forall|j: int|
                0 <= j < self@.len() ==> (#[trigger] r@[j]).0 == self@[j].0 && r@[j].1
                    == section.cells()[key_index_spec(self@[j].0) as int],
            r@ == captured(section.cells(), self@),
    {
        proof {
            use_type_invariant(self);
        }
        let ghost dv = diff_view(self.cells@);
        assert forall|j: int| 0 <= j < dv.len() implies key_index_spec(#[trigger] dv[j].0) < 4096 by {
            assert(dv[j] == self@[j]);
        }
        let mut out: Vec<(String, BlockState)> = Vec::new();
        let mut i: usize = 0;
        while i < self.cells.len()
            invariant
                section.wf(),
                i <= self.cells@.len(),
                out@.len() == i,
                dv == diff_view(self.cells@),
                forall|j: int| 0 <= j < dv.len() ==> key_index_spec(#[trigger] dv[j].0) < 4096,
                forall|j: int|
                    0 <= j < i ==> (#[trigger] out@[j]).0@ == self.cells@[j].0@ && out@[j].1@
                        == section.cells()[key_index_spec(self.cells@[j].0@) as int],
            decreases self.cells.len() - i,
        {
            let (x, y, z) = parse_local(&self.cells[i].0);
            assert(key_index_spec(dv[i as int].0) < 4096);
            let b = section.get(x, y, z).duplicate();
            out.push((copy_string(&self.cells[i].0), b));
            i += 1;
        }
        assert(diff_view(out@) =~= captured(section.cells(), dv));
        assert forall|a: int, b: int| 0 <= a < b < out@.len() implies seq_lt(
            #[trigger] diff_view(out@)[a].0,
            #[trigger] diff_view(out@)[b].0,
        ) by {
            assert(diff_view(out@)[a].0 == dv[a].0 && diff_view(out@)[b].0 == dv[b].0);
        }
        let r = SectionDiff { cells: out };
        r
    }
}

/// Inserts an entry into a key-ordered cell list.
fn insert_cell(p: Vec<(String, BlockState)>, k: Vec<char>, v: BlockState) -> (out: Vec<
    (String, BlockState),
>)
    ensures
        diff_view(out@) == cells_insert(diff_view(p@), k@, v@),
    decreases p@.len(),
{
    let mut p = p;
    if p.len() == 0 {
        let mut out: Vec<(String, BlockState)> = Vec::new();
        out.push((string_of(&k), v));
        assert(diff_view(out@) =~= seq![(k@, v@)]);
        return out;
    }
    let ghost pv = diff_view(p@);
    let first = p.remove(0);
    assert(diff_view(p@) =~= pv.drop_first());
    let fk = chars_of(first.0.as_str());
    let c = crate::blockstate::compare_chars(&fk, &k);
    if c == 0 {
        let mut out: Vec<(String, BlockState)> = Vec::new();
        out.push((string_of(&k), v));
        out.append(&mut p);
        assert(diff_view(out@) =~= seq![(k@, v@)] + pv.drop_first());
        out
    } else if c == 1 {
        let mut out: Vec<(String, BlockState)> = Vec::new();
        let ghost fv = (first.0@, first.1@);
        out.push((string_of(&k), v));
        out.push(first);
        out.append(&mut p);
        assert(pv =~= seq![fv] + pv.drop_first());
        assert(diff_view(out@) =~= seq![(k@, v@)] + pv);
        out
    } else {
        let ghost fv = (first.0@, first.1@);
        let rest = insert_cell(p, k, v);
        let mut out: Vec<(String, BlockState)> = Vec::new();
        out.push(first);
        let mut rest = rest;
        out.append(&mut rest);
        assert(diff_view(out@) =~= seq![fv] + cells_insert(pv.drop_first(), k@, v@));
        out
    }
}

/// Reads the `x,y,z` coordinates of a cell key (missing or unreadable
/// pieces read as 0).
pub fn parse_local(key: &String) -> (r: (u8, u8, u8))
    ensures
        r == (key_coord(key@, 0), key_coord(key@, 1), key_coord(key@, 2)),
        index_spec(r.0, r.1, r.2) == key_index_spec(key@),
{
    let chars = chars_of(key.as_str());
    let parts = split_chars(&chars, ',');
    let x = coord_of(&parts, 0);
    let y = coord_of(&parts, 1);
    let z = coord_of(&parts, 2);
    (x, y, z)
}

fn coord_of(parts: &Vec<Vec<char>>, n: usize) -> (r: u8)
    ensures
        n < parts@.len() ==> r == match parse_in_range(parts@[n as int]@, false, 0, 255) {
            Some(v) => v as u8,
            None => 0u8,
        },
        n >= parts@.len() ==> r == 0,
        r == ({
            let ps = views(parts@);
            if (n as int) < ps.len() {
                match parse_in_range(ps[n as int], false, 0, 255) {
                    Some(v) => v as u8,
                    None => 0u8,
                }
            } else {
                0u8
            }
        }),
{
    if n < parts.len() {
        match parse_int_chars(&parts[n], false, 0, 255) {
            Some(v) => v as u8,
            None => 0,
        }
    } else {
        0
    }
}

/// Counting one more `k` in a list of (key, count) kept in key order, as a
/// sorted map does.
pub open spec fn tally_insert(t: Seq<(Seq<char>, nat)>, k: Seq<char>) -> Seq<(Seq<char>, nat)>
    decreases t.len(),
{
    if t.len() == 0 {
        seq![(k, 1nat)]
    } else if t[0].0 == k {
        seq![(k, t[0].1 + 1)] + t.drop_first()
    } else if seq_lt(k, t[0].0) {
        seq![(k, 1nat)] + t
    } else {
        seq![t[0]] + tally_insert(t.drop_first(), k)
    }
}

/// The non-air cells of `cells`, counted by compact state in key order.
pub open spec fn tally_non_air(cells: Seq<BlockStateView>) -> Seq<(Seq<char>, nat)>
    decreases cells.len(),
{
    if cells.len() == 0 {
        seq![]
    } else if is_air_like_view(cells.last()) {
        tally_non_air(cells.drop_last())
    } else {
        tally_insert(tally_non_air(cells.drop_last()), compact(cells.last()))
    }
}

pub open spec fn tally_view(t: Seq<(String, usize)>) -> Seq<(Seq<char>, nat)> {
    t.map_values(|e: (String, usize)| (e.0@, e.1 as nat))
}

pub open spec fn tally_total(t: Seq<(Seq<char>, nat)>) -> nat
    decreases t.len(),
{
    if t.len() == 0 {
        0
    } else {
        t[0].1 + tally_total(t.drop_first())
    }
}

pub proof fn lemma_tally_insert_total(t: Seq<(Seq<char>, nat)>, k: Seq<char>)
    ensures
        tally_total(tally_insert(t, k)) == tally_total(t) + 1,
    decreases t.len(),
{
    let ins = tally_insert(t, k);
    if t.len() == 0 {
        assert(ins.drop_first() =~= Seq::<(Seq<char>, nat)>::empty());
        assert(tally_total(ins) == ins[0].1 + tally_total(ins.drop_first()));
    } else {
        assert(tally_total(t) == t[0].1 + tally_total(t.drop_first()));
        assert(tally_total(ins) == ins[0].1 + tally_total(ins.drop_first()));
        if t[0].0 == k {
            assert(ins.drop_first() =~= t.drop_first());
        } else if seq_lt(k, t[0].0) {
            assert(ins.drop_first() =~= t);
        } else {
            lemma_tally_insert_total(t.drop_first(), k);
            assert(ins.drop_first() =~= tally_insert(t.drop_first(), k));
        }
    }
}

/// The per-state counts of `non_air_counts` add up to its total.
pub proof fn law_counts_sum_to_total(cells: Seq<BlockStateView>)
    ensures
        tally_total(tally_non_air(cells)) == count_non_air(cells),
    decreases cells.len(),
{
    if cells.len() > 0 {
        law_counts_sum_to_total(cells.drop_last());
        if !is_air_like_view(cells.last()) {
            lemma_tally_insert_total(tally_non_air(cells.drop_last()), compact(cells.last()));
        }
    }
}

/// No single entry of a tally exceeds the tally's total.
pub proof fn lemma_tally_entry_le_total(t: Seq<(Seq<char>, nat)>, j: int)
    requires
        0 <= j < t.len(),
    ensures
        t[j].1 <= tally_total(t),
    decreases t.len(),
{
    if j > 0 {
        lemma_tally_entry_le_total(t.drop_first(), j - 1);
    }
}

/// `t` with one more `key` counted.
pub fn tally_add(t: &Vec<(String, usize)>, key: String) -> (out: Vec<(String, usize)>)
    requires
        tally_total(tally_view(t@)) < usize::MAX,
    ensures
        tally_view(out@) == tally_insert(tally_view(t@), key@),
{
    let kc = chars_of(key.as_str());
    let mut out: Vec<(String, usize)> = Vec::new();
    let mut i: usize = 0;
    let ghost tv = tally_view(t@);
    assert(tv.skip(0) =~= tv);
    assert(tally_view(out@) =~= Seq::<(Seq<char>, nat)>::empty());
    while i < t.len()
        invariant
            i <= t@.len(),
            kc@ == key@,
            tv == tally_view(t@),
            tally_total(tv) < usize::MAX,
            tally_view(out@) + tally_insert(tv.skip(i as int), key@) == tally_insert(tv, key@),
        decreases t.len() - i,
    {
        let ghost rest = tv.skip(i as int);
        assert(rest[0] == (t@[i as int].0@, t@[i as int].1 as nat));
        assert(rest.drop_first() =~= tv.skip(i + 1));
        let pk = chars_of(t[i].0.as_str());
        let c = compare_chars(&pk, &kc);
        if c == 0 || c == 1 {
            let ghost before = tally_view(out@);
            if c == 0 {
                proof {
                    lemma_tally_entry_le_total(tv, i as int);
                }
                out.push((key, t[i].1 + 1));
                i += 1;
            } else {
                out.push((key, 1));
            }
            let ghost mid = tally_view(out@);
            let ghost j0 = i;
            while i < t.len()
                invariant
                    j0 <= i <= t@.len(),
                    tv == tally_view(t@),
                    tally_view(out@) == mid + tv.subrange(j0 as int, i as int),
                decreases t.len() - i,
            {
                let ghost o = tally_view(out@);
                out.push((copy_string(&t[i].0), t[i].1));
                assert(tv[i as int] == (t@[i as int].0@, t@[i as int].1 as nat));
                assert(tally_view(out@) =~= o.push(tv[i as int]));
                assert(tally_view(out@) =~= mid + tv.subrange(j0 as int, i + 1));
                i += 1;
            }
            assert(tv.subrange(j0 as int, t@.len() as int) =~= (if c == 0 {
                rest.drop_first()
            } else {
                rest
            }));
            assert(tally_view(out@) =~= before + tally_insert(rest, key@));
            return out;
        }
        let ghost before = tally_view(out@);
        out.push((copy_string(&t[i].0), t[i].1));
        assert(tally_view(out@) =~= before.push(rest[0]));
        assert(tally_insert(rest, key@) == seq![rest[0]] + tally_insert(rest.drop_first(), key@));
        assert(tally_view(out@) + tally_insert(tv.skip(i + 1), key@) =~= before + tally_insert(
            rest,
            key@,
        ));
        i += 1;
    }
    let ghost before = tally_view(out@);
    out.push((key, 1));
    assert(tv.skip(i as int) =~= Seq::<(Seq<char>, nat)>::empty());
    assert(tally_view(out@) =~= before + tally_insert(tv.skip(i as int), key@));
    out
}

impl SectionBlocks {
    /// The number of non-air cells, and those cells counted by compact
    /// state, in key order (as a sorted map lists them).
    pub fn non_air_counts(&self) -> (r: (usize, Vec<(String, usize)>))
        requires
            self.wf(),
        ensures
            r.0 == count_non_air(self.cells()),
            tally_view(r.1@) == tally_non_air(self.cells()),
    {
        let mut total: usize = 0;
        let mut counts: Vec<(String, usize)> = Vec::new();
        let mut i: usize = 0;
        assert(tally_view(counts@) =~= tally_non_air(self.cells().take(0)));
        while i < SECTION_SIZE
            invariant
                self.wf(),
                i <= 4096,
                total == count_non_air(self.cells().take(i as int)),
                total <= i,
                tally_view(counts@) == tally_non_air(self.cells().take(i as int)),
            decreases SECTION_SIZE - i,
        {
            let b = &self.palette[self.indices[i] as usize];
            let ghost cells = self.cells().take(i + 1);
            assert(cells.drop_last() =~= self.cells().take(i as int));
            assert(cells.last() == b@);
            if !b.is_air_like() {
                proof {
                    law_counts_sum_to_total(self.cells().take(i as int));
                }
                total += 1;
                let key = b.to_compact();
                counts = tally_add(&counts, key);
            }
            i += 1;
        }
        assert(self.cells().take(4096) =~= self.cells());
        (total, counts)
    }
}

/// A diff with the same keys whose values are what `cells` holds there.
pub open spec fn captured(cells: Seq<BlockStateView>, diff: Seq<(Seq<char>, BlockStateView)>) -> Seq<
    (Seq<char>, BlockStateView),
> {
    Seq::new(diff.len(), |j: int| (diff[j].0, cells[key_index_spec(diff[j].0) as int]))
}

/// The keys of a diff name distinct cells of a section.
pub open spec fn distinct_cells(diff: Seq<(Seq<char>, BlockStateView)>) -> bool {
    &&& forall|j: int| 0 <= j < diff.len() ==> key_index_spec(#[trigger] diff[j].0) < 4096
    &&& forall|a: int, b: int|
        0 <= a < b < diff.len() ==> key_index_spec(#[trigger] diff[a].0) != key_index_spec(
            #[trigger] diff[b].0,
        )
}

/// The value a diff names for cell `i` (the last entry for it), if any.
pub open spec fn diff_at(diff: Seq<(Seq<char>, BlockStateView)>, i: int) -> Option<BlockStateView>
    decreases diff.len(),
{
    if diff.len() == 0 {
        None
    } else if key_index_spec(diff.last().0) == i {
        Some(diff.last().1)
    } else {
        diff_at(diff.drop_last(), i)
    }
}

proof fn lemma_diff_at_none(diff: Seq<(Seq<char>, BlockStateView)>, i: int)
    ensures
        diff_at(diff, i) is None <==> forall|j: int| 0 <= j < diff.len() ==> key_index_spec(
            #[trigger] diff[j].0,
        ) != i,
    decreases diff.len(),
{
    if diff.len() > 0 {
        lemma_diff_at_none(diff.drop_last(), i);
        if key_index_spec(diff.last().0) != i {
            assert forall|j: int| 0 <= j < diff.len() - 1 implies diff.drop_last()[j] == diff[j] by {}
        }
    }
}

/// What applying a diff whose keys name distinct cells does to one cell: a
/// named cell takes the diff's state, unless that state is the void-air
/// "keep" marker; every other cell keeps its state.
pub proof fn law_apply_per_cell(cells: Seq<BlockStateView>, diff: Seq<(Seq<char>, BlockStateView)>, i: int)
    requires
        cells.len() == 4096,
        distinct_cells(diff),
        0 <= i < 4096,
    ensures
        apply_cells(cells, diff).0.len() == 4096,
        apply_cells(cells, diff).0[i] == match diff_at(diff, i) {
            Some(v) => if is_empty_sentinel_view(v) {
                cells[i]
            } else {
                v
            },
            None => cells[i],
        },
    decreases diff.len(),
{
    if diff.len() > 0 {
        let d = diff.drop_last();
        assert(distinct_cells(d)) by {
            assert forall|j: int| 0 <= j < d.len() implies key_index_spec(#[trigger] d[j].0) < 4096 by {
                assert(d[j] == diff[j]);
            }
            assert forall|a: int, b: int| 0 <= a < b < d.len() implies key_index_spec(
                #[trigger] d[a].0,
            ) != key_index_spec(#[trigger] d[b].0) by {
                assert(d[a] == diff[a] && d[b] == diff[b]);
            }
        }
        law_apply_per_cell(cells, d, i);
        let k = key_index_spec(diff.last().0) as int;
        assert(key_index_spec(diff[diff.len() - 1].0) < 4096);
        law_apply_per_cell(cells, d, k);
        if k == i {
            // no earlier entry names cell i
            assert forall|j: int| 0 <= j < d.len() implies key_index_spec(#[trigger] d[j].0) != i by {
                assert(d[j] == diff[j]);
                assert(key_index_spec(diff[j].0) != key_index_spec(diff[diff.len() - 1].0));
            }
            lemma_diff_at_none(d, i);
        }
    }
}

/// Capturing the cells a diff names and applying that capture after the
/// diff gives the section back, when the diff names distinct cells none of
/// which held the void-air marker.
pub proof fn law_capture_then_apply_undoes(
    cells: Seq<BlockStateView>,
    diff: Seq<(Seq<char>, BlockStateView)>,
)
    requires
        cells.len() == 4096,
        distinct_cells(diff),
        forall|j: int| 0 <= j < diff.len() ==> !is_empty_sentinel_view(
            #[trigger] cells[key_index_spec(diff[j].0) as int],
        ),
    ensures
        apply_cells(apply_cells(cells, diff).0, captured(cells, diff)).0 == cells,
{
    let c1 = apply_cells(cells, diff).0;
    let before = captured(cells, diff);
    assert(distinct_cells(before)) by {
        assert forall|j: int| 0 <= j < before.len() implies key_index_spec(#[trigger] before[j].0)
            < 4096 by {
            assert(before[j].0 == diff[j].0);
        }
        assert forall|a: int, b: int| 0 <= a < b < before.len() implies key_index_spec(
            #[trigger] before[a].0,
        ) != key_index_spec(#[trigger] before[b].0) by {
            assert(before[a].0 == diff[a].0 && before[b].0 == diff[b].0);
        }
    }
    law_apply_per_cell(cells, diff, 0);
    let c2 = apply_cells(c1, before).0;
    law_apply_per_cell(c1, before, 0);
    assert forall|i: int| 0 <= i < 4096 implies c2[i] == cells[i] by {
        law_apply_per_cell(cells, diff, i);
        law_apply_per_cell(c1, before, i);
        lemma_diff_at_none(diff, i);
        lemma_diff_at_none(before, i);
        if diff_at(diff, i) is Some {
            let j = choose|j: int| 0 <= j < diff.len() && key_index_spec(#[trigger] diff[j].0) == i;
            lemma_diff_at_is(diff, i, j);
            lemma_diff_at_is(before, i, j);
            assert(before[j].1 == cells[i]);
        } else {
            assert forall|j: int| 0 <= j < before.len() implies key_index_spec(#[trigger] before[j].0)
                != i by {
                assert(before[j].0 == diff[j].0);
            }
        }
    }
    assert(c2 =~= cells);
}

proof fn lemma_diff_at_is(diff: Seq<(Seq<char>, BlockStateView)>, i: int, j: int)
    requires
        distinct_cells(diff),
        0 <= j < diff.len(),
        key_index_spec(diff[j].0) == i,
    ensures
        diff_at(diff, i) == Some(diff[j].1),
    decreases diff.len(),
{
    if j < diff.len() - 1 {
        assert(key_index_spec(diff[j].0) != key_index_spec(diff[diff.len() - 1].0));
        let d = diff.drop_last();
        assert(d[j] == diff[j]);
        assert(distinct_cells(d)) by {
            assert forall|jj: int| 0 <= jj < d.len() implies key_index_spec(#[trigger] d[jj].0) < 4096 by {
                assert(d[jj] == diff[jj]);
            }
            assert forall|a: int, b: int| 0 <= a < b < d.len() implies key_index_spec(
                #[trigger] d[a].0,
            ) != key_index_spec(#[trigger] d[b].0) by {
                assert(d[a] == diff[a] && d[b] == diff[b]);
            }
        }
        lemma_diff_at_is(d, i, j);
    }
}

/// How many entries of a diff set a cell to a state it does not hold
/// (void-air entries set nothing).
pub open spec fn diff_changes(cells: Seq<BlockStateView>, diff: Seq<(Seq<char>, BlockStateView)>) -> nat
    decreases diff.len(),
{
    if diff.len() == 0 {
        0
    } else {
        let (k, v) = diff.last();
        diff_changes(cells, diff.drop_last()) + if !is_empty_sentinel_view(v) && cells[key_index_spec(
            k,
        ) as int] != v {
            1nat
        } else {
            0nat
        }
    }
}

/// Applying a diff whose keys name distinct cells counts exactly the entries
/// that change their cell.
pub proof fn law_apply_counts_changes(cells: Seq<BlockStateView>, diff: Seq<(Seq<char>, BlockStateView)>)
    requires
        cells.len() == 4096,
        distinct_cells(diff),
    ensures
        apply_cells(cells, diff).1 == diff_changes(cells, diff),
    decreases diff.len(),
{
    if diff.len() > 0 {
        let d = diff.drop_last();
        assert(distinct_cells(d)) by {
            assert forall|j: int| 0 <= j < d.len() implies key_index_spec(#[trigger] d[j].0) < 4096 by {
                assert(d[j] == diff[j]);
            }
            assert forall|a: int, b: int| 0 <= a < b < d.len() implies key_index_spec(
                #[trigger] d[a].0,
            ) != key_index_spec(#[trigger] d[b].0) by {
                assert(d[a] == diff[a] && d[b] == diff[b]);
            }
        }
        law_apply_counts_changes(cells, d);
        let i = key_index_spec(diff.last().0) as int;
        assert(key_index_spec(diff[diff.len() - 1].0) < 4096);
        law_apply_per_cell(cells, d, i);
        assert forall|j: int| 0 <= j < d.len() implies key_index_spec(#[trigger] d[j].0) != i by {
            assert(d[j] == diff[j]);
            assert(key_index_spec(diff[j].0) != key_index_spec(diff[diff.len() - 1].0));
        }
        lemma_diff_at_none(d, i);
    }
}

} // verus!
