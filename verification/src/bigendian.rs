//! Big-endian byte encodings of unsigned and signed integers.

use vstd::prelude::*;

verus! {

/// 256 to the power `n`.
pub open spec fn pow256(n: nat) -> nat
    decreases n,
{
    if n == 0 {
        1
    } else {
        256 * pow256((n - 1) as nat)
    }
}

/// The unsigned value of a big-endian byte string.
pub open spec fn be_value(s: Seq<u8>) -> nat
    decreases s.len(),
{
    if s.len() == 0 {
        0
    } else {
        be_value(s.drop_last()) * 256 + s.last() as nat
    }
}

/// The low `n` bytes of `v`, most significant first.
pub open spec fn be_bytes(v: nat, n: nat) -> Seq<u8>
    decreases n,
{
    if n == 0 {
        seq![]
    } else {
        be_bytes(v / 256, (n - 1) as nat).push((v % 256) as u8)
    }
}

/// Two's-complement bit pattern of a signed value in `n` bytes.
pub open spec fn twos(v: int, n: nat) -> nat {
    if v < 0 {
        (v + pow256(n)) as nat
    } else {
        v as nat
    }
}

/// The signed value of an `n`-byte two's-complement bit pattern.
pub open spec fn signed_of(u: nat, n: nat) -> int {
    if u * 2 >= pow256(n) {
        u - pow256(n)
    } else {
        u as int
    }
}

pub proof fn lemma_pow256_pos(n: nat)
    ensures
        pow256(n) > 0,
    decreases n,
{
    if n > 0 {
        lemma_pow256_pos((n - 1) as nat);
    }
}

pub proof fn lemma_pow256_values()
    ensures
        pow256(1) == 0x100,
        pow256(2) == 0x1_0000,
        pow256(4) == 0x1_0000_0000,
        pow256(8) == 0x1_0000_0000_0000_0000,
{
    reveal_with_fuel(pow256, 9);
}

pub proof fn lemma_pow256_monotone(a: nat, b: nat)
    requires
        a <= b,
    ensures
        pow256(a) <= pow256(b),
    decreases b,
{
    if a < b {
        lemma_pow256_monotone(a, (b - 1) as nat);
        lemma_pow256_pos((b - 1) as nat);
    }
}

pub proof fn lemma_be_bytes_len(v: nat, n: nat)
    ensures
        be_bytes(v, n).len() == n,
    decreases n,
{
    if n > 0 {
        lemma_be_bytes_len(v / 256, (n - 1) as nat);
    }
}

pub proof fn lemma_be_value_bound(s: Seq<u8>)
    ensures
        be_value(s) < pow256(s.len()),
    decreases s.len(),
{
    if s.len() > 0 {
        lemma_be_value_bound(s.drop_last());
        let a = be_value(s.drop_last());
        let p = pow256((s.len() - 1) as nat);
        assert(a * 256 + s.last() < 256 * p) by (nonlinear_arith)
            requires
                a < p,
                s.last() < 256,
        ;
    }
}

/// Decoding the `n` bytes of `v` gives `v` modulo `256^n`.
pub proof fn lemma_be_roundtrip(v: nat, n: nat)
    ensures
        be_value(be_bytes(v, n)) == v % pow256(n),
    decreases n,
{
    if n == 0 {
        assert(v % 1 == 0) by (nonlinear_arith);
    } else {
        let rest = be_bytes(v / 256, (n - 1) as nat);
        lemma_be_roundtrip(v / 256, (n - 1) as nat);
        assert(be_bytes(v, n).drop_last() =~= rest);
        lemma_pow256_pos((n - 1) as nat);
        let p = pow256((n - 1) as nat);
        vstd::arithmetic::div_mod::lemma_mod_breakdown(v as int, 256, p as int);
        assert(be_value(be_bytes(v, n)) == (v / 256) % p * 256 + v % 256);
        assert((v / 256) % p * 256 == 256 * ((v / 256) % p)) by (nonlinear_arith);
    }
}

/// A value below `256^n` survives the trip through its bytes unchanged.
pub proof fn lemma_be_roundtrip_small(v: nat, n: nat)
    requires
        v < pow256(n),
    ensures
        be_value(be_bytes(v, n)) == v,
{
    lemma_be_roundtrip(v, n);
    vstd::arithmetic::div_mod::lemma_small_mod(v, pow256(n));
}

/// Two's complement and back.
pub proof fn lemma_twos_roundtrip(v: int, n: nat)
    requires
        n > 0,
        -pow256(n) <= 2 * v < pow256(n),
    ensures
        twos(v, n) < pow256(n),
        signed_of(twos(v, n), n) == v,
{
}

/// The value of the bytes `s[off..off + n]`.
pub fn read_be(b: &[u8], off: usize, n: usize) -> (r: u64)
    requires
        n <= 8,
        off + n <= b.len(),
    ensures
        r == be_value(b@.subrange(off as int, off + n)),
    decreases n,
{
    if n == 0 {
        0
    } else {
        let a = read_be(b, off, n - 1);
        proof {
            let s = b@.subrange(off as int, off + n);
            assert(s.drop_last() =~= b@.subrange(off as int, off + n - 1));
            lemma_be_value_bound(s.drop_last());
            lemma_pow256_monotone((n - 1) as nat, 7);
            reveal_with_fuel(pow256, 8);
            assert(a * 256 + 255 <= u64::MAX) by (nonlinear_arith)
                requires
                    a < 0x100_0000_0000_0000,
            ;
        }
        let last: usize = off + (n - 1);
        a * 256 + b[last] as u64
    }
}

/// Appends the low `n` bytes of `v`, most significant first.
pub fn push_be(out: &mut Vec<u8>, v: u64, n: usize)
    requires
        n <= 8,
    ensures
        final(out)@ == old(out)@ + be_bytes(v as nat, n as nat),
    decreases n,
{
    if n > 0 {
        push_be(out, v / 256, n - 1);
        out.push((v % 256) as u8);
        proof {
            let b = be_bytes(v as nat, n as nat);
            assert(b =~= be_bytes((v / 256) as nat, (n - 1) as nat).push((v % 256) as u8));
        }
    } else {
        assert(old(out)@ + be_bytes(v as nat, 0) =~= old(out)@);
    }
}

/// Appends the bytes of `b`.
pub fn append_bytes(out: &mut Vec<u8>, b: &[u8])
    ensures
        final(out)@ == old(out)@ + b@,
{
    let ghost start = out@;
    let mut i: usize = 0;
    while i < b.len()
        invariant
            i <= b@.len(),
            out@ == start + b@.subrange(0, i as int),
        decreases b.len() - i,
    {
        out.push(b[i]);
        i += 1;
        assert(out@ =~= start + b@.subrange(0, i as int));
    }
    assert(b@.subrange(0, b@.len() as int) =~= b@);
}

/// A fresh copy of `b[from..to]`.
pub fn copy_range(b: &[u8], from: usize, to: usize) -> (out: Vec<u8>)
    requires
        from <= to <= b@.len(),
    ensures
        out@ == b@.subrange(from as int, to as int),
{
    let mut out: Vec<u8> = Vec::new();
    let mut i: usize = from;
    while i < to
        invariant
            from <= i <= to,
            to <= b@.len(),
            out@ == b@.subrange(from as int, i as int),
        decreases to - i,
    {
        out.push(b[i]);
        i += 1;
        assert(out@ =~= b@.subrange(from as int, i as int));
    }
    out
}

} // verus!
