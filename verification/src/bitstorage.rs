//! Minecraft `SimpleBitStorage`: tightly packed integers,
//! `values_per_long = 64 / bits`, values never straddling two longs.

use vstd::prelude::*;
use crate::text::{append_str, chars_of, push_int, string_of};
use vstd::arithmetic::div_mod::{
    lemma_div_is_ordered, lemma_div_is_ordered_by_denominator, lemma_div_plus_one,
    lemma_fundamental_div_mod, lemma_mod_pos_bound,
};
use vstd::arithmetic::mul::{
    lemma_mul_inequality, lemma_mul_is_commutative, lemma_mul_is_distributive_add_other_way,
};

verus! {

/// Values that fit in one long at `bits` bits each.
pub open spec fn values_per_long(bits: nat) -> nat {
    64nat / bits
}

/// `(1 << bits) - 1`.
pub open spec fn low_mask(bits: nat) -> u64 {
    ((1u64 << (bits as u64)) - 1) as u64
}

/// Number of longs needed for `size` values.
pub open spec fn longs_needed(bits: nat, size: nat) -> nat {
    let v = values_per_long(bits);
    ((size + v - 1) as nat / v) as nat
}

/// Value `i` as packed in `data`.
pub open spec fn slot_value(data: Seq<i64>, bits: nat, i: int) -> u32 {
    let v = values_per_long(bits) as int;
    let w = data[i / v] as u64;
    let off = ((i % v) * bits) as u64;
    ((w >> off) & low_mask(bits)) as u32
}

/// The `size` values that `data` packs at `bits` bits each.
pub open spec fn decode(bits: nat, size: nat, data: Seq<i64>) -> Seq<u32> {
    Seq::new(size, |i: int| slot_value(data, bits, i))
}

/// Packed integer storage of `size` values of `bits` bits each.
#[derive(Clone, Debug)]
pub struct BitStorage {
    bits: u8,
    size: usize,
    data: Vec<i64>,
    mask: u64,
    values_per_long: usize,
}

impl BitStorage {
    /// The storage's fields agree with each other.
    pub closed spec fn wf(&self) -> bool {
        &&& 1 <= self.bits <= 32
        &&& self.values_per_long == values_per_long(self.bits as nat)
        &&& self.mask == low_mask(self.bits as nat)
        &&& self.data@.len() == longs_needed(self.bits as nat, self.size as nat)
    }

    pub closed spec fn spec_bits(&self) -> nat {
        self.bits as nat
    }

    pub closed spec fn spec_size(&self) -> nat {
        self.size as nat
    }

    pub closed spec fn spec_data(&self) -> Seq<i64> {
        self.data@
    }
}

impl View for BitStorage {
    type V = Seq<u32>;

    open spec fn view(&self) -> Seq<u32> {
        decode(self.spec_bits(), self.spec_size(), self.spec_data())
    }
}

proof fn lemma_mask_facts(b: u64)
    requires
        1 <= b <= 32,
    ensures
        ((1u64 << b) - 1) as u64 <= 0xffff_ffff,
        1u64 << b >= 2,
{
    assert(1 <= b <= 32 ==> ((1u64 << b) - 1) as u64 <= 0xffff_ffff && 1u64 << b >= 2)
        by (bit_vector);
}

proof fn lemma_write_same(w: u64, v: u64, m: u64, b: u64, o: u64)
    by (bit_vector)
    requires
        1 <= b <= 32,
        m == ((1u64 << b) - 1) as u64,
        o + b <= 64,
        v <= m,
    ensures
        ((((w & !(m << o)) | ((v & m) << o)) >> o) & m) == v,
{
}

proof fn lemma_write_other(w: u64, v: u64, m: u64, b: u64, o: u64, o2: u64)
    by (bit_vector)
    requires
        1 <= b <= 32,
        m == ((1u64 << b) - 1) as u64,
        o + b <= 64,
        o2 + b <= 64,
        o2 + b <= o || o + b <= o2,
    ensures
        ((((w & !(m << o)) | ((v & m) << o)) >> o2) & m) == ((w >> o2) & m),
{
}

proof fn lemma_i64_roundtrip(x: u64)
    by (bit_vector)
    ensures
        ((x as i64) as u64) == x,
{
}

proof fn lemma_vpl_facts(bits: int)
    requires
        1 <= bits <= 32,
    ensures
        2 <= 64int / bits <= 64,
        (64int / bits) * bits <= 64,
{
    lemma_fundamental_div_mod(64, bits);
    lemma_mod_pos_bound(64, bits);
    lemma_div_is_ordered_by_denominator(64, bits, 32);
    lemma_div_is_ordered_by_denominator(64, 1, bits);
    assert(64int / 32 == 2);
    assert(64int / 1 == 64);
    lemma_mul_is_commutative(bits, 64int / bits);
}

proof fn lemma_slot_offset(i: int, bits: int, vpl: int)
    requires
        1 <= bits <= 32,
        vpl == 64int / bits,
        0 <= i,
    ensures
        0 <= i % vpl < vpl,
        i == vpl * (i / vpl) + i % vpl,
        0 <= (i % vpl) * bits,
        (i % vpl) * bits + bits <= 64,
{
    lemma_vpl_facts(bits);
    lemma_fundamental_div_mod(i, vpl);
    lemma_mod_pos_bound(i, vpl);
    lemma_mul_inequality(i % vpl + 1, vpl, bits);
    lemma_mul_inequality(0, i % vpl, bits);
    lemma_mul_is_distributive_add_other_way(bits, i % vpl, 1);
}

proof fn lemma_slot_offsets(i: int, j: int, bits: int, vpl: int)
    requires
        1 <= bits <= 32,
        vpl == 64int / bits,
        0 <= i,
        0 <= j,
        i / vpl == j / vpl,
        i != j,
    ensures
        (i % vpl) * bits + bits <= (j % vpl) * bits || (j % vpl) * bits + bits <= (i % vpl)
            * bits,
{
    lemma_slot_offset(i, bits, vpl);
    lemma_slot_offset(j, bits, vpl);
    assert(i % vpl != j % vpl);
    if i % vpl < j % vpl {
        lemma_mul_inequality(i % vpl + 1, j % vpl, bits);
        lemma_mul_is_distributive_add_other_way(bits, i % vpl, 1);
    } else {
        lemma_mul_inequality(j % vpl + 1, i % vpl, bits);
        lemma_mul_is_distributive_add_other_way(bits, j % vpl, 1);
    }
}

proof fn lemma_cell_in_range(i: int, size: int, bits: int, vpl: int)
    requires
        1 <= bits <= 32,
        vpl == 64int / bits,
        0 <= i < size,
    ensures
        0 <= i / vpl < (size + vpl - 1) / vpl,
        0 <= (i % vpl) * bits,
        (i % vpl) * bits + bits <= 64,
{
    lemma_vpl_facts(bits);
    lemma_slot_offset(i, bits, vpl);
    lemma_div_is_ordered(0, i, vpl);
    assert(0int / vpl == 0);
    lemma_div_is_ordered(i + vpl, size + vpl - 1, vpl);
    lemma_div_plus_one(i, vpl);
}

impl BitStorage {
    /// Zeroed storage for `size` values of `bits` bits (1 to 32).
    pub fn new(bits: u8, size: usize) -> (r: Self)
        requires
            1 <= bits <= 32,
            size + 64 <= usize::MAX,
        ensures
            r.wf(),
            r.spec_bits() == bits as nat,
            r.spec_size() == size as nat,
            r@ == Seq::new(size as nat, |i: int| 0u32),
            r.spec_data() == Seq::new(longs_needed(bits as nat, size as nat), |i: int| 0i64),
    {
        proof {
            lemma_vpl_facts(bits as int);
            lemma_mask_facts(bits as u64);
        }
        let values_per_long = 64 / (bits as usize);
        let len = (size + values_per_long - 1) / values_per_long;
        let data: Vec<i64> = vec![0; len];
        let mask: u64 = (1u64 << (bits as u64)) - 1;
        let r = Self { bits, size, data, mask, values_per_long };
        proof {
            assert forall|i: int| 0 <= i < size implies #[trigger] slot_value(r.data@, bits as nat, i)
                == 0u32 by {
                lemma_cell_in_range(i, size as int, bits as int, values_per_long as int);
                let off = ((i % values_per_long as int) * bits as int) as u64;
                let w = r.data@[i / values_per_long as int] as u64;
                assert(w == 0);
                assert((0u64 >> off) & mask == 0) by (bit_vector);
            }
            assert(r@ =~= Seq::new(size as nat, |i: int| 0u32));
            assert(r.spec_data() =~= Seq::new(longs_needed(bits as nat, size as nat), |i: int| 0i64));
        }
        r
    }

    /// Storage over an existing long array; the array must have exactly the
    /// length that `size` values of `bits` bits need.
    pub fn from_raw(bits: u8, size: usize, data: Vec<i64>) -> (r: Result<Self, String>)
        requires
            1 <= bits <= 32,
            size + 64 <= usize::MAX,
        ensures
            match r {
                Ok(s) => {
                    &&& s.wf()
                    &&& data@.len() == longs_needed(bits as nat, size as nat)
                    &&& s.spec_bits() == bits as nat
                    &&& s.spec_size() == size as nat
                    &&& s.spec_data() == data@
                    &&& s@ == decode(bits as nat, size as nat, data@)
                },
                Err(_) => data@.len() != longs_needed(bits as nat, size as nat),
            },
    {
        let mut storage = Self::new(bits, size);
        let expected = storage.data.len();
        if data.len() != expected {
            let mut msg = chars_of("bitstorage length mismatch: got ");
            push_int(&mut msg, data.len() as i64);
            append_str(&mut msg, " expected ");
            push_int(&mut msg, expected as i64);
            append_str(&mut msg, " (bits=");
            push_int(&mut msg, bits as i64);
            append_str(&mut msg, ", size=");
            push_int(&mut msg, size as i64);
            append_str(&mut msg, ")");
            return Err(string_of(&msg));
        }
        let r = Self {
            bits,
            size,
            data,
            mask: storage.mask,
            values_per_long: storage.values_per_long,
        };
        Ok(r)
    }

    /// What well-formedness gives a caller: between 1 and 32 bits per
    /// value, and exactly as many longs as the values need.
    pub proof fn lemma_wf(&self)
        requires
            self.wf(),
        ensures
            1 <= self.spec_bits() <= 32,
            self.spec_data().len() == longs_needed(self.spec_bits(), self.spec_size()),
            self@.len() == self.spec_size(),
    {
    }

    pub fn bits(&self) -> (r: u8)
        ensures
            r as nat == self.spec_bits(),
    {
        self.bits
    }

    /// The packed longs.
    pub fn raw(&self) -> (r: &[i64])
        ensures
            r@ == self.spec_data(),
    {
        self.data.as_slice()
    }

    /// The packed longs, taking the storage apart.
    pub fn into_raw(self) -> (r: Vec<i64>)
        ensures
            r@ == self.spec_data(),
    {
        self.data
    }

    /// Value `index`.
    pub fn get(&self, index: usize) -> (r: u32)
        requires
            self.wf(),
            index < self@.len(),
        ensures
            r == self@[index as int],
    {
        proof {
            lemma_vpl_facts(self.bits as int);
            lemma_cell_in_range(
                index as int,
                self.size as int,
                self.bits as int,
                self.values_per_long as int,
            );
        }
        let cell = index / self.values_per_long;
        let offset = (index % self.values_per_long) * (self.bits as usize);
        ((self.data[cell] as u64) >> (offset as u64) & self.mask) as u32
    }

    /// Sets value `index` to `value`, which must fit in `bits` bits.
    pub fn set(&mut self, index: usize, value: u32)
        requires
            old(self).wf(),
            index < old(self)@.len(),
            (value as u64) <= low_mask(old(self).spec_bits()),
        ensures
            final(self).wf(),
            final(self)@ == old(self)@.update(index as int, value),
            final(self).spec_bits() == old(self).spec_bits(),
            final(self).spec_size() == old(self).spec_size(),
            final(self).spec_data().len() == old(self).spec_data().len(),
    {
        proof {
            lemma_vpl_facts(self.bits as int);
            lemma_cell_in_range(
                index as int,
                self.size as int,
                self.bits as int,
                self.values_per_long as int,
            );
        }
        let ghost old_data = self.data@;
        let cell = index / self.values_per_long;
        let offset = (index % self.values_per_long) * (self.bits as usize);
        let m = self.mask;
        let w = self.data[cell] as u64;
        let clear = !(m << (offset as u64));
        let write = (w & clear) | (((value as u64) & m) << (offset as u64));
        self.data.set(cell, write as i64);
        proof {
            let bits = self.bits as nat;
            let vpl = self.values_per_long as int;
            lemma_i64_roundtrip(write);
            lemma_write_same(w, value as u64, m, bits as u64, offset as u64);
            assert forall|j: int| 0 <= j < self.size implies #[trigger] slot_value(
                self.data@,
                bits,
                j,
            ) == old(self)@.update(index as int, value)[j] by {
                lemma_cell_in_range(j, self.size as int, bits as int, vpl);
                if j == index {
                } else if j / vpl == cell as int {
                    lemma_slot_offsets(index as int, j, bits as int, vpl);
                    let o2 = ((j % vpl) * bits as int) as u64;
                    lemma_write_other(w, value as u64, m, bits as u64, offset as u64, o2);
                } else {
                    assert(self.data@[j / vpl] == old_data[j / vpl]);
                }
            }
            assert(self@ =~= old(self)@.update(index as int, value));
        }
    }

    /// All values in order.
    pub fn unpack(&self) -> (r: Vec<u32>)
        requires
            self.wf(),
        ensures
            r@ == self@,
    {
        let mut out: Vec<u32> = Vec::new();
        let mut i: usize = 0;
        while i < self.size
            invariant
                self.wf(),
                i <= self.size,
                self@.len() == self.size,
                out@ == self@.take(i as int),
            decreases self.size - i,
        {
            let v = self.get(i);
            out.push(v);
            i += 1;
            assert(out@ =~= self@.take(i as int));
        }
        assert(self@.take(self.size as int) =~= self@);
        out
    }

    /// Packs `values` at `bits` bits each; every value must fit.
    pub fn pack_values(bits: u8, values: &[u32]) -> (r: Self)
        requires
            1 <= bits <= 32,
            values@.len() + 64 <= usize::MAX,
            forall|i: int| 0 <= i < values@.len() ==> (values@[i] as u64) <= low_mask(bits as nat),
        ensures
            r.wf(),
            r@ == values@,
            r.spec_bits() == bits as nat,
            r.spec_size() == values@.len(),
            r.spec_data().len() == longs_needed(bits as nat, values@.len()),
    {
        let mut storage = Self::new(bits, values.len());
        let mut i: usize = 0;
        while i < values.len()
            invariant
                i <= values@.len(),
                storage.wf(),
                storage.spec_bits() == bits as nat,
                storage.spec_size() == values@.len(),
                storage@.len() == values@.len(),
                forall|j: int| 0 <= j < values@.len() ==> (values@[j] as u64) <= low_mask(
                    bits as nat,
                ),
                forall|j: int| 0 <= j < i ==> storage@[j] == values@[j],
            decreases values.len() - i,
        {
            storage.set(i, values[i]);
            i += 1;
        }
        assert(storage@ =~= values@);
        storage
    }
}

/// Writing a value and reading it back gives the value; other values keep theirs.
pub proof fn law_get_after_set(before: Seq<u32>, index: int, value: u32, j: int)
    requires
        0 <= index < before.len(),
        0 <= j < before.len(),
    ensures
        before.update(index, value)[index] == value,
        j != index ==> before.update(index, value)[j] == before[j],
{
}

} // verus!
