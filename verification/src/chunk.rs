//! Chunk-local coordinates and per-section biome storage.

use vstd::prelude::*;
use crate::bitstorage::{decode, low_mask, longs_needed, BitStorage};
use crate::indexset::{index_set_insert_full, index_set_into_vec, index_set_items, index_set_new};
use crate::palette::{
    ceil_log2, lemma_ceil_log2, lemma_p2_monotone, lemma_shl_is_p2, p2,
};
use crate::text::{
    append, append_str, chars_of, has_char, push_int, string_of, trim, trim_chars, trimmed,
};

verus! {

pub const BIOME_SECTION_SIZE: usize = 64;

/// Block coordinates → (local x, local y, local z, section y): the low four
/// bits of each coordinate and `y >> 4` (as `i8`).
pub fn local_in_chunk(x: i32, y: i32, z: i32) -> (r: (u8, u8, u8, i8))
    ensures
        r.0 as int == x % 16,
        r.1 as int == y % 16,
        r.2 as int == z % 16,
        r.3 == ((y >> 4u32) as i8),
        -2048 <= y < 2048 ==> r.3 as int == y / 16,
{
    proof {
        lemma_low4(x);
        lemma_low4(y);
        lemma_low4(z);
        if -2048 <= y < 2048 {
            assert(-2048 <= y < 2048 ==> (y >> 4u32) as i8 as int == (y >> 4u32) as int)
                by (bit_vector);
            lemma_shr4(y);
        }
    }
    let lx = (x & 15) as u8;
    let lz = (z & 15) as u8;
    let sy = (y >> 4u32) as i8;
    let ly = (y & 15) as u8;
    (lx, ly, lz, sy)
}

pub proof fn lemma_low4(x: i32)
    ensures
        (x & 15) as u8 as int == x % 16,
        0 <= (x & 15) < 16,
{
    assert(0 <= (x & 15) < 16) by (bit_vector);
    assert((x & 15) as u8 as i32 == (x & 15)) by (bit_vector);
    assert(x & 15 == x - (x >> 4u32) * 16) by (bit_vector);
    lemma_shr4(x);
}

pub proof fn lemma_shr4(x: i32)
    ensures
        (x >> 4u32) as int == x / 16,
{
    assert((x >> 4u32) * 16 <= x && x < (x >> 4u32) * 16 + 16) by (bit_vector);
    assert(((x >> 4u32) as int) * 16 <= x as int);
    vstd::arithmetic::div_mod::lemma_fundamental_div_mod(x as int, 16);
}

/// Local biome cell (0..3 on each axis) inside a section.
pub fn biome_local(x: i32, y: i32, z: i32) -> (r: (u8, u8, u8))
    ensures
        r.0 as int == (x % 16) / 4,
        r.1 as int == (y % 16) / 4,
        r.2 as int == (z % 16) / 4,
{
    proof {
        lemma_low4(x);
        lemma_low4(y);
        lemma_low4(z);
        assert(forall|v: i32| 0 <= v < 16 ==> #[trigger] (v >> 2u32) == v / 4) by {
            assert forall|v: i32| 0 <= v < 16 implies #[trigger] (v >> 2u32) == v / 4 by {
                assert(0 <= v < 16 ==> (v >> 2u32) == v / 4) by (bit_vector);
            }
        }
    }
    let bx = ((x & 15) >> 2u32) as u8;
    let by_ = ((y & 15) >> 2u32) as u8;
    let bz = ((z & 15) >> 2u32) as u8;
    (bx, by_, bz)
}

/// Min block corner of the 4×4×4 biome cell containing (x,y,z).
pub fn biome_cell_origin(x: i32, y: i32, z: i32) -> (r: (i32, i32, i32))
    ensures
        r.0 as int == x - x % 4,
        r.1 as int == y - y % 4,
        r.2 as int == z - z % 4,
{
    proof {
        lemma_clear_low2(x);
        lemma_clear_low2(y);
        lemma_clear_low2(z);
    }
    (x & !3i32, y & !3i32, z & !3i32)
}

proof fn lemma_clear_low2(x: i32)
    ensures
        (x & !3i32) as int == x - x % 4,
{
    assert(x & !3i32 == (x >> 2u32) * 4) by (bit_vector);
    assert((x >> 2u32) * 4 <= x && x < (x >> 2u32) * 4 + 4) by (bit_vector);
    vstd::arithmetic::div_mod::lemma_fundamental_div_mod(x as int, 4);
}

/// Biome bits for a palette of `n` entries (0 for one entry, else at least 1).
pub open spec fn biome_bits(n: nat) -> nat {
    if n <= 1 {
        0
    } else {
        let b = ceil_log2(n);
        if b < 1 {
            1
        } else {
            b
        }
    }
}

/// A biome id with `minecraft:` added when it has no namespace (after trimming).
pub open spec fn normalize_biome(s: Seq<char>) -> Seq<char> {
    let t = trim(s);
    if t.contains(':') {
        t
    } else {
        "minecraft:"@ + t
    }
}

/// Normalizes a biome id.
pub fn normalize_biome_text(s: &str) -> (r: String)
    ensures
        r@ == normalize_biome(s@),
{
    let t = trimmed(s);
    if has_char(&t, ':') {
        string_of(&t)
    } else {
        let mut out = chars_of("minecraft:");
        append(&mut out, &t);
        string_of(&out)
    }
}

fn biome_bits_exec(size: usize) -> (r: u8)
    ensures
        r as nat == biome_bits(size as nat),
{
    if size <= 1 {
        return 0;
    }
    let b = ceil_log2_direct(size);
    if b < 1 {
        1
    } else {
        b
    }
}

fn ceil_log2_direct(n: usize) -> (r: u8)
    ensures
        r as nat == ceil_log2(n as nat),
    decreases n,
{
    if n <= 1 {
        0
    } else {
        let h = (n / 2) + (n % 2);
        let r = ceil_log2_direct(h);
        proof {
            lemma_ceil_log2(h as nat, 63);
            lemma_p2_monotone(63, 64);
            lemma_p2_63();
        }
        r + 1
    }
}

proof fn lemma_p2_63()
    ensures
        p2(63) > usize::MAX / 2,
{
    reveal_with_fuel(p2, 64);
    assert(p2(63) == 0x8000_0000_0000_0000);
}

/// Section biomes: a palette of biome ids plus 64 indices (4×4×4 cells).
#[derive(Clone, Debug)]
pub struct SectionBiomes {
    pub palette: Vec<String>,
    pub indices: Vec<u16>,
}

/// Cell position of a biome cell: `(y << 4) | (z << 2) | x`.
pub open spec fn biome_index_spec(x: u8, y: u8, z: u8) -> usize {
    (((y as usize) << 4usize) | ((z as usize) << 2usize)) | (x as usize)
}

impl SectionBiomes {
    /// 64 indices naming palette entries.
    pub open spec fn wf(&self) -> bool {
        &&& self.indices@.len() == 64
        &&& 1 <= self.palette@.len() <= 65536
        &&& forall|i: int| 0 <= i < 64 ==> (#[trigger] self.indices@[i] as int)
            < self.palette@.len()
    }

    /// The biome of each of the 64 cells.
    pub open spec fn cells(&self) -> Seq<Seq<char>> {
        Seq::new(64, |i: int| self.palette@[self.indices@[i] as int]@)
    }

    /// Every cell holds the (normalized) biome.
    pub fn filled(biome: &str) -> (r: Self)
        ensures
            r.wf(),
            r.cells() == Seq::new(64, |i: int| normalize_biome(biome@)),
            r.palette@.len() == 1,
    {
        let r = SectionBiomes {
            palette: vec![normalize_biome_text(biome)],
            indices: vec![0u16; BIOME_SECTION_SIZE],
        };
        assert(r.cells() =~= Seq::new(64, |i: int| normalize_biome(biome@)));
        r
    }

    /// `(y << 4) | (z << 2) | x`.
    pub fn index(x: u8, y: u8, z: u8) -> (r: usize)
        ensures
            r == biome_index_spec(x, y, z),
            x < 4 && y < 4 && z < 4 ==> r == y * 16 + z * 4 + x,
    {
        proof {
            let (a, b, c) = (x as usize, y as usize, z as usize);
            assert(a < 4 && b < 4 && c < 4 ==> (((b << 4usize) | (c << 2usize)) | a) == b * 16
                + c * 4 + a) by (bit_vector);
        }
        (((y as usize) << 4usize) | ((z as usize) << 2usize)) | (x as usize)
    }

    /// The biome at a cell.
    pub fn get(&self, x: u8, y: u8, z: u8) -> (r: &str)
        requires
            self.wf(),
            biome_index_spec(x, y, z) < 64,
        ensures
            r@ == self.cells()[biome_index_spec(x, y, z) as int],
    {
        let id = self.indices[Self::index(x, y, z)] as usize;
        self.palette[id].as_str()
    }

    /// Sets a cell to the (normalized) biome, reusing an equal palette entry.
    pub fn set(&mut self, x: u8, y: u8, z: u8, biome: &str)
        requires
            old(self).wf(),
            old(self).palette@.len() < 65536,
            biome_index_spec(x, y, z) < 64,
        ensures
            final(self).wf(),
            final(self).cells() == old(self).cells().update(
                biome_index_spec(x, y, z) as int,
                normalize_biome(biome@),
            ),
            final(self).palette@.len() <= old(self).palette@.len() + 1,
    {
        let b = normalize_biome_text(biome);
        let idx = Self::index(x, y, z);
        let mut p: usize = 0;
        let mut found = false;
        while p < self.palette.len()
            invariant
                p <= self.palette@.len(),
                found ==> p < self.palette@.len() && self.palette@[p as int]@ == b@,
            decreases self.palette.len() - p - (if found { 1int } else { 0int }),
        {
            if self.palette[p] == b {
                found = true;
                break;
            }
            p += 1;
        }
        if found {
            self.indices.set(idx, p as u16);
            proof {
                assert(self.cells() =~= old(self).cells().update(idx as int, b@));
            }
        } else {
            let pos = self.palette.len();
            self.palette.push(b);
            self.indices.set(idx, pos as u16);
            proof {
                assert forall|i: int| 0 <= i < 64 implies (#[trigger] self.indices@[i] as int)
                    < self.palette@.len() by {
                    if i != idx {
                        assert(self.indices@[i] == old(self).indices@[i]);
                    }
                }
                assert forall|i: int| 0 <= i < 64 && i != idx implies self.palette@[
                    self.indices@[i] as int] == old(self).palette@[old(self).indices@[
                    i] as int] by {
                    assert(self.indices@[i] == old(self).indices@[i]);
                }
                assert(self.cells() =~= old(self).cells().update(idx as int, b@));
            }
        }
    }

    /// The used biome ids in first-use order and the packed indices
    /// (`None` for a single id).
    #[verifier::loop_isolation(false)]
    pub fn to_palette_nbt(&self) -> (r: (Vec<String>, Option<Vec<i64>>))
        requires
            self.wf(),
        ensures
            ({
                let keys = biome_keys(self.cells());
                &&& r.0@.map_values(|s: String| s@) == keys
                &&& (r.1 is None <==> biome_bits(keys.len()) == 0)
                &&& r.1 is Some ==> decode(biome_bits(keys.len()), 64, r.1.unwrap()@) == Seq::new(
                    64,
                    |i: int| biome_key_index(keys, self.cells()[i]) as u32,
                )
                &&& r.1 is Some ==> r.1.unwrap()@.len() == longs_needed(biome_bits(keys.len()), 64)
            }),
    {
        let mut used = index_set_new();
        let mut ids: Vec<u32> = Vec::new();
        let mut i: usize = 0;
        while i < BIOME_SECTION_SIZE
            invariant
                i <= 64,
                ids@.len() == i,
                index_set_items(used) == biome_keys(self.cells().take(i as int)),
                index_set_items(used).len() <= i,
                forall|j: int| 0 <= j < i ==> (ids@[j] as int) < index_set_items(used).len(),
                forall|j: int|
                    0 <= j < i ==> index_set_items(used)[ids@[j] as int] == self.cells()[j],
            decreases BIOME_SECTION_SIZE - i,
        {
            let id = self.indices[i] as usize;
            let key = self.palette[id].clone();
            let (idx, _) = index_set_insert_full(&mut used, key);
            proof {
                assert(self.cells().take(i + 1).drop_last() =~= self.cells().take(i as int));
                assert(self.cells().take(i + 1).last() == self.cells()[i as int]);
            }
            ids.push(idx as u32);
            i += 1;
        }
        assert(self.cells().take(64) =~= self.cells());
        let ghost keys = index_set_items(used);
        proof {
            lemma_biome_keys_distinct(self.cells());
            assert forall|j: int| 0 <= j < 64 implies ids@[j] as int == biome_key_index(
                keys,
                self.cells()[j],
            ) by {
                lemma_biome_key_index_of_distinct(keys, ids@[j] as int);
            }
        }
        let palette = index_set_into_vec(used);
        let bits = biome_bits_exec(palette.len());
        if bits == 0 {
            return (palette, None);
        }
        proof {
            lemma_ceil_log2(keys.len(), 6);
            reveal_with_fuel(p2, 7);
            lemma_biome_keys_len(self.cells());
            lemma_shl_is_p2(bits as nat);
            assert forall|j: int| 0 <= j < ids@.len() implies (ids@[j] as u64) <= low_mask(
                bits as nat,
            ) by {
                lemma_p2_monotone(ceil_log2(keys.len()), bits as nat);
            }
        }
        let storage = BitStorage::pack_values(bits, ids.as_slice());
        proof {
            assert(storage@ =~= Seq::new(
                64,
                |i: int| biome_key_index(keys, self.cells()[i]) as u32,
            ));
        }
        (palette, Some(storage.into_raw()))
    }

    /// Builds biomes from palette ids and packed indices. No ids gives
    /// plains; one id, or no (or empty) data, fills with the first id.
    #[verifier::loop_isolation(false)]
    pub fn from_palette_nbt(palette: &[String], data: Option<&[i64]>) -> (r: Result<Self, String>)
        ensures
            match r {
                Ok(s) => {
                    &&& s.wf()
                    &&& palette@.len() == 0 ==> s.cells() == Seq::new(
                        64,
                        |i: int| normalize_biome("minecraft:plains"@),
                    )
                    &&& (palette@.len() >= 1 && (palette@.len() == 1 || data is None
                        || data.unwrap()@.len() == 0)) ==> s.cells() == Seq::new(
                        64,
                        |i: int| normalize_biome(palette@[0]@),
                    )
                    &&& !(palette@.len() <= 1 || data is None || data.unwrap()@.len() == 0) ==> {
                        let bits = biome_bits(palette@.len() as nat);
                        let d = data.unwrap()@;
                        &&& d.len() == longs_needed(bits, 64)
                        &&& palette@.len() <= 65536
                        &&& forall|i: int| 0 <= i < 64 ==> (#[trigger] decode(bits, 64, d)[i] as int) < palette@.len()
                        &&& s.cells() == Seq::new(
                            64,
                            |i: int| palette@[decode(bits, 64, d)[i] as int]@,
                        )
                    }
                },
                Err(_) => !(palette@.len() <= 1 || data is None || data.unwrap()@.len() == 0) && {
                    let bits = biome_bits(palette@.len() as nat);
                    let d = data.unwrap()@;
                    ||| d.len() != longs_needed(bits, 64)
                    ||| palette@.len() > 65536
                    ||| exists|i: int|
                        0 <= i < 64 && (decode(bits, 64, d)[i] as int) >= palette@.len()
                },
            },
    {
        if palette.len() == 0 {
            return Ok(Self::filled("minecraft:plains"));
        }
        let single = match data {
            None => true,
            Some(d) => d.len() == 0,
        };
        if palette.len() == 1 || single {
            return Ok(Self::filled(palette[0].as_str()));
        }
        if palette.len() > 65536 {
            return Err(string_of(&chars_of("biome palette too large")));
        }
        let bits = biome_bits_exec(palette.len());
        proof {
            lemma_ceil_log2(palette@.len() as nat, 16);
            reveal_with_fuel(p2, 17);
        }
        let raw = match data {
            Some(d) => d,
            None => {
                return Err(string_of(&chars_of("missing biome data")));
            },
        };
        let mut raw_vec: Vec<i64> = Vec::new();
        let mut k: usize = 0;
        while k < raw.len()
            invariant
                k <= raw@.len(),
                raw_vec@ == raw@.take(k as int),
            decreases raw.len() - k,
        {
            raw_vec.push(raw[k]);
            k += 1;
            assert(raw_vec@ =~= raw@.take(k as int));
        }
        assert(raw@.take(raw@.len() as int) =~= raw@);
        let storage = match BitStorage::from_raw(bits, BIOME_SECTION_SIZE, raw_vec) {
            Ok(s) => s,
            Err(e) => return Err(e),
        };
        let mut indices: Vec<u16> = Vec::new();
        let mut i: usize = 0;
        while i < BIOME_SECTION_SIZE
            invariant
                i <= 64,
                indices@.len() == i,
                forall|j: int| 0 <= j < i ==> indices@[j] as int == storage@[j] as int,
                forall|j: int| 0 <= j < i ==> (storage@[j] as int) < palette@.len(),
            decreases BIOME_SECTION_SIZE - i,
        {
            let id = storage.get(i);
            if id as usize >= palette.len() {
                assert(decode(bits as nat, 64, raw@)[i as int] as int >= palette@.len());
                let mut msg = chars_of("biome palette index ");
                push_int(&mut msg, id as i64);
                append_str(&mut msg, " out of range");
                return Err(string_of(&msg));
            }
            indices.push(id as u16);
            i += 1;
        }
        let mut pal: Vec<String> = Vec::new();
        let mut k: usize = 0;
        while k < palette.len()
            invariant
                k <= palette@.len(),
                pal@.len() == k,
                forall|j: int| 0 <= j < k ==> (#[trigger] pal@[j])@ == palette@[j]@,
            decreases palette.len() - k,
        {
            pal.push(palette[k].clone());
            k += 1;
        }
        let r = SectionBiomes { palette: pal, indices };
        proof {
            assert(r.cells() =~= Seq::new(
                64,
                |i: int| palette@[decode(bits as nat, 64, raw@)[i] as int]@,
            ));
        }
        Ok(r)
    }
}

/// The distinct biome ids of the cells, in first-use order.
pub open spec fn biome_keys(cells: Seq<Seq<char>>) -> Seq<Seq<char>>
    decreases cells.len(),
{
    if cells.len() == 0 {
        seq![]
    } else {
        let prev = biome_keys(cells.drop_last());
        if prev.contains(cells.last()) {
            prev
        } else {
            prev.push(cells.last())
        }
    }
}

/// Position of `k` among distinct keys (-1 when absent).
pub open spec fn biome_key_index(keys: Seq<Seq<char>>, k: Seq<char>) -> int
    decreases keys.len(),
{
    if keys.len() == 0 {
        -1
    } else if keys.last() == k && !keys.drop_last().contains(k) {
        keys.len() - 1
    } else {
        biome_key_index(keys.drop_last(), k)
    }
}

proof fn lemma_biome_keys_len(cells: Seq<Seq<char>>)
    ensures
        biome_keys(cells).len() <= cells.len(),
    decreases cells.len(),
{
    if cells.len() > 0 {
        lemma_biome_keys_len(cells.drop_last());
    }
}

proof fn lemma_biome_keys_distinct(cells: Seq<Seq<char>>)
    ensures
        forall|a: int, b: int|
            0 <= a < b < biome_keys(cells).len() ==> biome_keys(cells)[a] != biome_keys(cells)[b],
    decreases cells.len(),
{
    if cells.len() > 0 {
        lemma_biome_keys_distinct(cells.drop_last());
        let prev = biome_keys(cells.drop_last());
        let k = cells.last();
        if !prev.contains(k) {
            assert forall|a: int, b: int|
                0 <= a < b < biome_keys(cells).len() implies biome_keys(cells)[a] != biome_keys(
                cells,
            )[b] by {
                if b == prev.len() {
                    assert(prev[a] != k);
                }
            }
        }
    }
}

proof fn lemma_biome_key_index_of_distinct(keys: Seq<Seq<char>>, j: int)
    requires
        0 <= j < keys.len(),
        forall|a: int, b: int| 0 <= a < b < keys.len() ==> keys[a] != keys[b],
    ensures
        biome_key_index(keys, keys[j]) == j,
    decreases keys.len(),
{
    if j == keys.len() - 1 {
        assert(!keys.drop_last().contains(keys[j]));
    } else {
        assert(keys.drop_last()[j] == keys[j]);
        lemma_biome_key_index_of_distinct(keys.drop_last(), j);
    }
}

} // verus!
