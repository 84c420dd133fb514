//! Sponge schematics: the summary of one, the varint block data codec, and
//! the style heuristics (block families, pillar spacing).

use vstd::prelude::*;
use crate::blockstate::{compact, parse_state, strip_ns, BlockState};
use crate::assets::{contains_seq, contains_str};
use crate::level::{line, opt_chars, opt_i32, opt_int_chars, opt_int_text, opt_string, opt_text, string_views};
use crate::text::{
    append, append_str, chars_of, ends_with, ends_with_str, eq_str, has_char, int_text, index_of,
    nat_text, push_int, push_nat, rsplit_once_chars, string_from, string_of,
};

verus! {

/// Parse-only metadata and block histogram of a schematic.
#[derive(Clone, Debug)]
pub struct SchemInfo {
    pub version: i32,
    pub data_version: Option<i32>,
    /// Known release alias for DataVersion when mapped (e.g. `26.2`, `1.20.1`).
    pub mc: Option<String>,
    pub width: u16,
    pub height: u16,
    pub length: u16,
    pub offset: [i32; 3],
    pub palette_n: usize,
    pub volume: usize,
    pub entities: usize,
    pub block_entities: usize,
    /// Top block states by count (includes air).
    pub top_blocks: Vec<(String, usize)>,
    pub path: String,
}

/// Solid / air counts of one layer and its most common block.
#[derive(Clone, Debug)]
pub struct LayerHint {
    pub y: u32,
    pub solid: usize,
    pub air: usize,
    pub dominant: Option<(String, usize)>,
}

/// `name=count` pairs joined by commas.
pub open spec fn top_text(tb: Seq<(String, usize)>) -> Seq<char>
    decreases tb.len(),
{
    if tb.len() == 0 {
        seq![]
    } else if tb.len() == 1 {
        tb[0].0@ + "="@ + nat_text(tb[0].1 as nat)
    } else {
        top_text(tb.drop_last()) + ","@ + tb.last().0@ + "="@ + nat_text(tb.last().1 as nat)
    }
}

/// The summary lines of a schematic.
pub open spec fn schem_lines(s: SchemInfo) -> Seq<Seq<char>> {
    let base = seq![
        "schem="@ + s.path@,
        "version="@ + int_text(s.version as int),
        "DataVersion="@ + opt_int_text(opt_i32(s.data_version)),
        "mc="@ + opt_text(opt_string(s.mc)),
        "size="@ + nat_text(s.width as nat) + "x"@ + nat_text(s.height as nat) + "x"@ + nat_text(
            s.length as nat,
        ),
        "offset="@ + int_text(s.offset@[0] as int) + ","@ + int_text(s.offset@[1] as int) + ","@
            + int_text(s.offset@[2] as int),
        "volume="@ + nat_text(s.volume as nat),
        "palette_n="@ + nat_text(s.palette_n as nat),
        "entities="@ + nat_text(s.entities as nat),
        "block_entities="@ + nat_text(s.block_entities as nat),
    ];
    if s.top_blocks@.len() == 0 {
        base
    } else {
        base.push("blocks_top="@ + top_text(s.top_blocks@))
    }
}

fn nat_line(key: &str, n: usize) -> (r: String)
    ensures
        r@ == key@ + nat_text(n as nat),
{
    let mut m: Vec<char> = Vec::new();
    push_nat(&mut m, n as u64);
    line(key, &m)
}

/// `name=count` pairs joined by commas.
pub fn pairs_text(pairs: &Vec<(String, usize)>) -> (r: Vec<char>)
    ensures
        r@ == top_text(pairs@),
{
    let mut summary: Vec<char> = Vec::new();
    let mut i: usize = 0;
    while i < pairs.len()
        invariant
            i <= pairs@.len(),
            summary@ == top_text(pairs@.take(i as int)),
        decreases pairs.len() - i,
    {
        assert(pairs@.take(i + 1).drop_last() =~= pairs@.take(i as int));
        if i > 0 {
            summary.push(',');
        }
        append_str(&mut summary, pairs[i].0.as_str());
        summary.push('=');
        push_nat(&mut summary, pairs[i].1 as u64);
        proof {
            reveal_strlit("=");
            reveal_strlit(",");
            if i == 0 {
                assert(summary@ =~= top_text(pairs@.take(1)));
            } else {
                assert(summary@ =~= top_text(pairs@.take(i + 1)));
            }
        }
        i += 1;
    }
    assert(pairs@.take(pairs@.len() as int) =~= pairs@);
    summary
}

impl SchemInfo {
    /// One `key=value` line per field, and the block histogram when known.
    pub fn lines(&self) -> (r: Vec<String>)
        ensures
            string_views(r@) == schem_lines(*self),
    {
        let mut out: Vec<String> = Vec::new();
        out.push(line("schem=", &chars_of(self.path.as_str())));
        out.push(line("version=", &opt_int_chars(Some(self.version as i64))));
        let dv = match self.data_version {
            Some(v) => Some(v as i64),
            None => None,
        };
        out.push(line("DataVersion=", &opt_int_chars(dv)));
        out.push(line("mc=", &opt_chars(&self.mc)));
        let mut sz: Vec<char> = Vec::new();
        push_nat(&mut sz, self.width as u64);
        sz.push('x');
        push_nat(&mut sz, self.height as u64);
        sz.push('x');
        push_nat(&mut sz, self.length as u64);
        out.push(line("size=", &sz));
        let mut off: Vec<char> = Vec::new();
        push_int(&mut off, self.offset[0] as i64);
        off.push(',');
        push_int(&mut off, self.offset[1] as i64);
        off.push(',');
        push_int(&mut off, self.offset[2] as i64);
        out.push(line("offset=", &off));
        out.push(nat_line("volume=", self.volume));
        out.push(nat_line("palette_n=", self.palette_n));
        out.push(nat_line("entities=", self.entities));
        out.push(nat_line("block_entities=", self.block_entities));
        proof {
            reveal_strlit("x");
            reveal_strlit(",");
            assert(string_views(out@)[1] =~= "version="@ + int_text(self.version as int));
            assert(string_views(out@)[2] =~= "DataVersion="@ + opt_int_text(opt_i32(self.data_version)));
            assert(string_views(out@)[4] =~= "size="@ + nat_text(self.width as nat) + "x"@ + nat_text(
                self.height as nat,
            ) + "x"@ + nat_text(self.length as nat));
            assert(string_views(out@)[5] =~= "offset="@ + int_text(self.offset@[0] as int) + ","@
                + int_text(self.offset@[1] as int) + ","@ + int_text(self.offset@[2] as int));
        }
        let ghost base = string_views(out@);
        assert(base =~= schem_lines(*self).take(10));
        if self.top_blocks.len() > 0 {
            let summary = pairs_text(&self.top_blocks);
            out.push(line("blocks_top=", &summary));
            assert(string_views(out@) =~= schem_lines(*self));
        } else {
            assert(string_views(out@) =~= schem_lines(*self));
        }
        out
    }
}

// ---------------------------------------------------------------------------
// Block data varints

/// LEB128 bytes of `v`: seven bits per byte, low first, high bit set on all
/// but the last.
pub open spec fn varint_bytes(v: nat) -> Seq<u8>
    decreases v,
{
    if v < 128 {
        seq![v as u8]
    } else {
        seq![(v % 128 + 128) as u8] + varint_bytes(v / 128)
    }
}

/// Appends the varint encoding of `value`.
pub fn write_varint(out: &mut Vec<u8>, value: u32)
    ensures
        final(out)@ == old(out)@ + varint_bytes(value as nat),
{
    let ghost start = out@;
    let ghost v0 = value as nat;
    let mut value = value;
    let mut done = false;
    while !done
        invariant
            !done ==> out@ + varint_bytes(value as nat) == start + varint_bytes(v0),
            done ==> out@ == start + varint_bytes(v0),
        decreases value as int + (if done { 0int } else { 1int }),
    {
        let low = value & 0x7F;
        let next = value >> 7u32;
        proof {
            assert(low == value % 128 && low < 128) by (bit_vector)
                requires
                    low == value & 0x7F,
            ;
            assert(next == value / 128) by (bit_vector)
                requires
                    next == value >> 7u32,
            ;
        }
        let mut byte = low as u8;
        if next != 0 {
            assert((byte | 0x80u8) == byte + 128) by (bit_vector)
                requires
                    byte < 128,
            ;
            byte = byte | 0x80;
        }
        let ghost before = out@;
        out.push(byte);
        proof {
            if next != 0 {
                assert(varint_bytes(value as nat) == seq![byte] + varint_bytes(next as nat));
                assert(out@ + varint_bytes(next as nat) =~= before + varint_bytes(value as nat));
            } else {
                assert(varint_bytes(value as nat) == seq![byte]);
                assert(out@ =~= before + varint_bytes(value as nat));
            }
        }
        if next == 0 {
            done = true;
        }
        value = next;
    }
}

/// Outcome of decoding one varint.
pub enum VarintRead {
    /// The value and the position after it.
    Value(u32, nat),
    Truncated,
    TooLong,
    /// A sixth byte would be shifted past 32 bits.
    ShiftOverflow,
}

/// Decodes one varint from position `i`, bits collected so far in `acc`
/// and the next group going to bit `shift`.
pub open spec fn read_one(data: Seq<u8>, i: nat, shift: nat, acc: u32) -> VarintRead
    decreases data.len() - i,
{
    if i >= data.len() {
        VarintRead::Truncated
    } else if shift >= 32 {
        VarintRead::ShiftOverflow
    } else {
        let b = data[i as int];
        let acc2 = acc | (((b & 0x7f) as u32) << (shift as u32));
        if b & 0x80 == 0 {
            VarintRead::Value(acc2, i + 1)
        } else if shift + 7 > 35 {
            VarintRead::TooLong
        } else {
            read_one(data, i + 1, shift + 7, acc2)
        }
    }
}

pub proof fn lemma_read_one_advances(data: Seq<u8>, i: nat, shift: nat, acc: u32)
    ensures
        read_one(data, i, shift, acc) matches VarintRead::Value(_, j) ==> i < j <= data.len(),
    decreases data.len() - i,
{
    if i < data.len() && shift < 32 {
        let b = data[i as int];
        let acc2 = acc | (((b & 0x7f) as u32) << (shift as u32));
        if b & 0x80 != 0 && shift + 7 <= 35 {
            lemma_read_one_advances(data, i + 1, shift + 7, acc2);
        }
    }
}

/// Outcome of decoding up to `max` varints.
pub enum VarintsRead {
    Done(Seq<u32>),
    Failed(Seq<char>),
    ShiftOverflow,
}

/// Decodes varints from position `i` until `max` values are read or the
/// data ends, appending to `acc`.
pub open spec fn read_all(data: Seq<u8>, max: nat, i: nat, acc: Seq<u32>) -> VarintsRead
    decreases data.len() - i,
{
    if i < data.len() && acc.len() < max {
        match read_one(data, i, 0, 0) {
            VarintRead::Value(v, j) => {
                proof {
                    lemma_read_one_advances(data, i, 0, 0);
                }
                read_all(data, max, j, acc.push(v))
            },
            VarintRead::Truncated => VarintsRead::Failed("truncated varint in schem BlockData"@),
            VarintRead::TooLong => VarintsRead::Failed("varint too long"@),
            VarintRead::ShiftOverflow => VarintsRead::ShiftOverflow,
        }
    } else {
        VarintsRead::Done(acc)
    }
}

/// Decodes one varint at `i`.
#[verifier::loop_isolation(false)]
fn read_varint_at(data: &[u8], i: usize) -> (r: Result<(u32, usize), String>)
    requires
        !(read_one(data@, i as nat, 0, 0) is ShiftOverflow),
    ensures
        match read_one(data@, i as nat, 0, 0) {
            VarintRead::Value(v, j) => r == Ok::<(u32, usize), String>((v, j as usize)),
            VarintRead::Truncated => r is Err && r->Err_0@ == "truncated varint in schem BlockData"@,
            VarintRead::TooLong => r is Err && r->Err_0@ == "varint too long"@,
            VarintRead::ShiftOverflow => false,
        },
{
    let mut i = i;
    let mut value: u32 = 0;
    let mut shift: u32 = 0;
    let ghost start = read_one(data@, i as nat, 0, 0);
    loop
        invariant
            shift <= 35,
            shift % 7 == 0,
            read_one(data@, i as nat, shift as nat, value) == start,
            !(start is ShiftOverflow),
        decreases data.len() - i,
    {
        if i >= data.len() {
            return Err(string_of(&chars_of("truncated varint in schem BlockData")));
        }
        let byte = data[i];
        i += 1;
        value = value | (((byte & 0x7F) as u32) << shift);
        if byte & 0x80 == 0 {
            return Ok((value, i));
        }
        shift += 7;
        if shift > 35 {
            return Err(string_of(&chars_of("varint too long")));
        }
    }
}

/// Decodes one varint at `i`; `Err(None)` where the decoder would shift a
/// sixth group past 32 bits.
#[verifier::loop_isolation(false)]
fn varint_at_checked(data: &[u8], i: usize) -> (r: Result<(u32, usize), Option<String>>)
    ensures
        match read_one(data@, i as nat, 0, 0) {
            VarintRead::Value(v, j) => r == Ok::<(u32, usize), Option<String>>((v, j as usize)),
            VarintRead::Truncated => r matches Err(Some(m)) && m@ == "truncated varint in schem BlockData"@,
            VarintRead::TooLong => r matches Err(Some(m)) && m@ == "varint too long"@,
            VarintRead::ShiftOverflow => r matches Err(None),
        },
{
    let mut i = i;
    let mut value: u32 = 0;
    let mut shift: u32 = 0;
    let ghost start = read_one(data@, i as nat, 0, 0);
    loop
        invariant
            shift <= 35,
            shift % 7 == 0,
            read_one(data@, i as nat, shift as nat, value) == start,
        decreases data.len() - i,
    {
        if i >= data.len() {
            return Err(Some(string_of(&chars_of("truncated varint in schem BlockData"))));
        }
        if shift >= 32 {
            return Err(None);
        }
        let byte = data[i];
        i += 1;
        value = value | (((byte & 0x7F) as u32) << shift);
        if byte & 0x80 == 0 {
            return Ok((value, i));
        }
        shift += 7;
        if shift > 35 {
            return Err(Some(string_of(&chars_of("varint too long"))));
        }
    }
}

/// Whether `read_varints` can decode `data` with limit `max` without a
/// group shifted past 32 bits (the case the decoder does not admit).
pub fn varints_decodable(data: &[u8], max: usize) -> (r: bool)
    ensures
        r == !(read_all(data@, max as nat, 0, seq![]) is ShiftOverflow),
{
    let mut count: usize = 0;
    let mut i: usize = 0;
    let ghost mut acc: Seq<u32> = seq![];
    while i < data.len() && count < max
        invariant
            i <= data@.len(),
            count == acc.len(),
            read_all(data@, max as nat, i as nat, acc) == read_all(data@, max as nat, 0, seq![]),
        decreases data.len() - i,
    {
        proof {
            lemma_read_one_advances(data@, i as nat, 0, 0);
        }
        match varint_at_checked(data, i) {
            Ok((v, j)) => {
                proof {
                    acc = acc.push(v);
                }
                count += 1;
                i = j;
            },
            Err(Some(_)) => return true,
            Err(None) => return false,
        }
    }
    true
}

/// Decodes up to `max` varints from schematic block data.
pub fn read_varints(data: &[u8], max: usize) -> (r: Result<Vec<u32>, String>)
    requires
        !(read_all(data@, max as nat, 0, seq![]) is ShiftOverflow),
    ensures
        match read_all(data@, max as nat, 0, seq![]) {
            VarintsRead::Done(vs) => r is Ok && r->Ok_0@ == vs,
            VarintsRead::Failed(m) => r is Err && r->Err_0@ == m,
            VarintsRead::ShiftOverflow => false,
        },
{
    let mut out: Vec<u32> = Vec::new();
    let mut i: usize = 0;
    while i < data.len() && out.len() < max
        invariant
            i <= data@.len(),
            read_all(data@, max as nat, i as nat, out@) == read_all(data@, max as nat, 0, seq![]),
            !(read_all(data@, max as nat, 0, seq![]) is ShiftOverflow),
        decreases data.len() - i,
    {
        proof {
            lemma_read_one_advances(data@, i as nat, 0, 0);
        }
        match read_varint_at(data, i) {
            Ok((v, j)) => {
                out.push(v);
                i = j;
            },
            Err(e) => return Err(e),
        }
    }
    Ok(out)
}

/// `2^s` for the shifts a varint decoder uses.
pub open spec fn group_base(s: nat) -> nat {
    if s == 0 {
        1
    } else if s == 7 {
        0x80
    } else if s == 14 {
        0x4000
    } else if s == 21 {
        0x20_0000
    } else if s == 28 {
        0x1000_0000
    } else {
        0x8_0000_0000
    }
}

proof fn lemma_or_shift(acc: u32, x: u32, s: u32)
    requires
        s == 0 || s == 7 || s == 14 || s == 21 || s == 28,
        acc < group_base(s as nat),
        x < 128,
        acc + x * group_base(s as nat) < 0x1_0000_0000,
    ensures
        acc | (x << s) == acc + x * group_base(s as nat),
{
    if s == 0 {
        assert(acc | (x << 0u32) == acc + x) by (bit_vector)
            requires
                x < 128,
                acc < 1,
        ;
    } else if s == 7 {
        assert(acc | (x << 7u32) == acc + x * 0x80) by (bit_vector)
            requires
                x < 128,
                acc < 0x80,
        ;
    } else if s == 14 {
        assert(acc | (x << 14u32) == acc + x * 0x4000) by (bit_vector)
            requires
                x < 128,
                acc < 0x4000,
        ;
    } else if s == 21 {
        assert(acc | (x << 21u32) == acc + x * 0x20_0000) by (bit_vector)
            requires
                x < 128,
                acc < 0x20_0000,
        ;
    } else {
        assert(acc | (x << 28u32) == acc + x * 0x1000_0000) by (bit_vector)
            requires
                x < 16,
                acc < 0x1000_0000,
        ;
    }
}

pub proof fn lemma_varint_bytes_len(v: nat)
    ensures
        varint_bytes(v).len() >= 1,
    decreases v,
{
    if v >= 128 {
        lemma_varint_bytes_len(v / 128);
    }
}

/// Decoding the varint of the remaining value `v / 2^shift`, with the low
/// `shift` bits of `v` already collected, yields `v`.
proof fn lemma_read_varint(data: Seq<u8>, i: nat, shift: nat, v: u32)
    requires
        shift == 0 || shift == 7 || shift == 14 || shift == 21 || shift == 28,
        shift > 0 ==> v >= group_base(shift),
        i + varint_bytes(v as nat / group_base(shift)).len() <= data.len(),
        data.subrange(i as int, (i + varint_bytes(v as nat / group_base(shift)).len()) as int)
            == varint_bytes(v as nat / group_base(shift)),
    ensures
        read_one(data, i, shift, (v as nat % group_base(shift)) as u32) == VarintRead::Value(
            v,
            i + varint_bytes(v as nat / group_base(shift)).len(),
        ),
    decreases 32 - shift,
{
    let p = group_base(shift);
    let w = v as nat / p;
    let acc = (v as nat % p) as u32;
    let enc = varint_bytes(w);
    lemma_varint_bytes_len(w);
    assert(data[i as int] == enc[0]);
    let b = enc[0];
    vstd::arithmetic::div_mod::lemma_fundamental_div_mod(v as int, p as int);
    // v == p * w + acc
    let x = (w % 128) as u32;
    assert(b & 0x7f == x && (b & 0x80 == 0) == (w < 128)) by {
        if w < 128 {
            let wb = w as u8;
            assert(b == wb);
            assert(wb & 0x7f == wb && wb & 0x80 == 0) by (bit_vector)
                requires
                    wb < 128,
            ;
        } else {
            let lo = (w % 128) as u8;
            assert(b == (w % 128 + 128) as u8);
            assert(((lo + 128) as u8) & 0x7f == lo && ((lo + 128) as u8) & 0x80 != 0) by (bit_vector)
                requires
                    lo < 128,
            ;
        }
    }
    assert(acc + x * p < 0x1_0000_0000) by (nonlinear_arith)
        requires
            v == p * w + acc,
            x <= w,
            x >= 0,
            acc >= 0,
            p > 0,
            v < 0x1_0000_0000,
    ;
    if shift == 28 {
        assert(w < 16) by (nonlinear_arith)
            requires
                v == 0x1000_0000 * w + acc,
                acc >= 0,
                v < 0x1_0000_0000,
        ;
    }
    lemma_or_shift(acc, x, shift as u32);
    let acc2 = acc | (((b & 0x7f) as u32) << (shift as u32));
    assert(acc2 == acc + x * p);
    if w < 128 {
        assert(acc2 == v);
    } else {
        let s2 = shift + 7;
        let p2 = group_base(s2);
        assert(p2 == p * 128);
        assert(v >= p2) by (nonlinear_arith)
            requires
                v == p * w + acc,
                w >= 128,
                p2 == p * 128,
                acc >= 0,
        ;
        assert(shift < 28) by {
            if shift == 28 {
                assert(v >= 0x8_0000_0000);
            }
        }
        vstd::arithmetic::div_mod::lemma_div_denominator(v as int, p as int, 128);
        assert(v as nat / p2 == w / 128);
        vstd::arithmetic::div_mod::lemma_mod_breakdown(v as int, p as int, 128);
        assert(v as nat % p2 == p * (w % 128) + acc);
        assert(acc2 == (v as nat % p2) as u32) by (nonlinear_arith)
            requires
                acc2 == acc + x * p,
                x == w % 128,
                v as nat % p2 == p * (w % 128) + acc,
        ;
        let rest = varint_bytes(w / 128);
        assert(enc =~= seq![b] + rest);
        assert(data.subrange((i + 1) as int, (i + 1 + rest.len()) as int) =~= rest) by {
            assert(data.subrange((i + 1) as int, (i + 1 + rest.len()) as int) =~= data.subrange(
                i as int,
                (i + enc.len()) as int,
            ).subrange(1, enc.len() as int));
        }
        lemma_read_varint(data, i + 1, s2, v);
    }
}

/// Concatenated varints of a list of values.
pub open spec fn varints_bytes(vs: Seq<u32>) -> Seq<u8>
    decreases vs.len(),
{
    if vs.len() == 0 {
        seq![]
    } else {
        varint_bytes(vs[0] as nat) + varints_bytes(vs.drop_first())
    }
}

proof fn lemma_read_all_suffix(prefix: Seq<u8>, vs: Seq<u32>, max: nat, acc: Seq<u32>)
    requires
        acc.len() + vs.len() <= max,
    ensures
        read_all(prefix + varints_bytes(vs), max, prefix.len(), acc) == VarintsRead::Done(acc + vs),
    decreases vs.len(),
{
    let data = prefix + varints_bytes(vs);
    if vs.len() == 0 {
        assert(data.len() == prefix.len());
        assert(acc + vs =~= acc);
    } else {
        let v = vs[0];
        let enc = varint_bytes(v as nat);
        let tail = varints_bytes(vs.drop_first());
        lemma_varint_bytes_len(v as nat);
        assert(data =~= prefix + enc + tail);
        assert(data.subrange(prefix.len() as int, (prefix.len() + enc.len()) as int) =~= enc);
        assert(v as nat / group_base(0) == v as nat);
        assert(v as nat % group_base(0) == 0);
        lemma_read_varint(data, prefix.len(), 0, v);
        let prefix2 = prefix + enc;
        assert(prefix2 + tail =~= data);
        lemma_read_all_suffix(prefix2, vs.drop_first(), max, acc.push(v));
        assert(acc.push(v) + vs.drop_first() =~= acc + vs);
    }
}

/// Reading back what was written: the varints of any list of values decode
/// to that list, whatever limit at least its length is given.
pub proof fn law_varint_roundtrip(vs: Seq<u32>, max: nat)
    requires
        vs.len() <= max,
    ensures
        read_all(varints_bytes(vs), max, 0, seq![]) == VarintsRead::Done(vs),
{
    lemma_read_all_suffix(seq![], vs, max, seq![]);
    assert(Seq::<u8>::empty() + varints_bytes(vs) =~= varints_bytes(vs));
    assert(Seq::<u32>::empty() + vs =~= vs);
}

proof fn lemma_read_all_limited(prefix: Seq<u8>, vs: Seq<u32>, max: nat, acc: Seq<u32>)
    requires
        acc.len() <= max,
    ensures
        read_all(prefix + varints_bytes(vs), max, prefix.len(), acc) == VarintsRead::Done(
            acc + vs.take(if vs.len() <= max - acc.len() { vs.len() as int } else { max - acc.len() }),
        ),
    decreases vs.len(),
{
    let data = prefix + varints_bytes(vs);
    if vs.len() == 0 {
        assert(data.len() == prefix.len());
        assert(acc + vs.take(0) =~= acc);
    } else if acc.len() == max {
        assert(acc + vs.take(0) =~= acc);
    } else {
        let v = vs[0];
        let enc = varint_bytes(v as nat);
        let tail = varints_bytes(vs.drop_first());
        lemma_varint_bytes_len(v as nat);
        assert(data =~= prefix + enc + tail);
        assert(data.subrange(prefix.len() as int, (prefix.len() + enc.len()) as int) =~= enc);
        assert(v as nat / group_base(0) == v as nat);
        assert(v as nat % group_base(0) == 0);
        lemma_read_varint(data, prefix.len(), 0, v);
        let prefix2 = prefix + enc;
        assert(prefix2 + tail =~= data);
        lemma_read_all_limited(prefix2, vs.drop_first(), max, acc.push(v));
        let n = if vs.len() <= max - acc.len() { vs.len() as int } else { max - acc.len() };
        assert(acc.push(v) + vs.drop_first().take(n - 1) =~= acc + vs.take(n));
    }
}

/// Reading with a limit below the count gives the first values up to the
/// limit; with a limit at least the count, all of them.
pub proof fn law_varint_prefix(vs: Seq<u32>, max: nat)
    ensures
        read_all(varints_bytes(vs), max, 0, seq![]) == VarintsRead::Done(
            vs.take(if vs.len() <= max { vs.len() as int } else { max as int }),
        ),
{
    lemma_read_all_limited(seq![], vs, max, seq![]);
    assert(Seq::<u8>::empty() + varints_bytes(vs) =~= varints_bytes(vs));
    let n = if vs.len() <= max { vs.len() as int } else { max as int };
    assert(Seq::<u32>::empty() + vs.take(n) =~= vs.take(n));
}

// ---------------------------------------------------------------------------
// Style heuristics

/// The family a block belongs to, judged by its name without namespace.
pub open spec fn family_of(name: Seq<char>) -> Seq<char> {
    let base = strip_ns(name);
    if ends_with(base, "_stairs"@) {
        "stairs"@
    } else if ends_with(base, "_slab"@) {
        "slab"@
    } else if ends_with(base, "_wall"@) {
        "wall"@
    } else if ends_with(base, "_fence"@) || ends_with(base, "_fence_gate"@) {
        "fence"@
    } else if ends_with(base, "_log"@) || ends_with(base, "_wood"@) || ends_with(base, "_stem"@) {
        "log"@
    } else if ends_with(base, "_planks"@) {
        "planks"@
    } else if ends_with(base, "_door"@) || ends_with(base, "_trapdoor"@) {
        "door"@
    } else if contains_seq(base, "glass"@) {
        "glass"@
    } else if ends_with(base, "_carpet"@) {
        "carpet"@
    } else if ends_with(base, "_wool"@) || ends_with(base, "_terracotta"@) || ends_with(
        base,
        "_concrete"@,
    ) || ends_with(base, "_concrete_powder"@) {
        "color_block"@
    } else if contains_seq(base, "brick"@) || contains_seq(base, "stone"@) || contains_seq(
        base,
        "deepslate"@,
    ) {
        "masonry"@
    } else if ends_with(base, "_pillar"@) || base == "purpur_pillar"@ || base == "quartz_pillar"@ {
        "pillar"@
    } else {
        "other"@
    }
}

/// The family a block belongs to, for style summaries.
pub fn block_family(name: &str) -> (r: &'static str)
    ensures
        r@ == family_of(name@),
{
    let n = chars_of(name);
    let base = match rsplit_once_chars(&n, ':') {
        Some((_, b)) => b,
        None => n,
    };
    if ends_with_str(&base, "_stairs") {
        "stairs"
    } else if ends_with_str(&base, "_slab") {
        "slab"
    } else if ends_with_str(&base, "_wall") {
        "wall"
    } else if ends_with_str(&base, "_fence") || ends_with_str(&base, "_fence_gate") {
        "fence"
    } else if ends_with_str(&base, "_log") || ends_with_str(&base, "_wood") || ends_with_str(
        &base,
        "_stem",
    ) {
        "log"
    } else if ends_with_str(&base, "_planks") {
        "planks"
    } else if ends_with_str(&base, "_door") || ends_with_str(&base, "_trapdoor") {
        "door"
    } else if contains_str(&base, "glass") {
        "glass"
    } else if ends_with_str(&base, "_carpet") {
        "carpet"
    } else if ends_with_str(&base, "_wool") || ends_with_str(&base, "_terracotta") || ends_with_str(
        &base,
        "_concrete",
    ) || ends_with_str(&base, "_concrete_powder") {
        "color_block"
    } else if contains_str(&base, "brick") || contains_str(&base, "stone") || contains_str(
        &base,
        "deepslate",
    ) {
        "masonry"
    } else if ends_with_str(&base, "_pillar") || eq_str(&base, "purpur_pillar") || eq_str(
        &base,
        "quartz_pillar",
    ) {
        "pillar"
    } else {
        "other"
    }
}

/// Greatest common divisor by Euclid's algorithm.
pub open spec fn gcd(a: nat, b: nat) -> nat
    decreases b,
{
    if b == 0 {
        a
    } else {
        gcd(b, a % b)
    }
}

pub fn gcd_u32(a: u32, b: u32) -> (r: u32)
    ensures
        r == gcd(a as nat, b as nat),
{
    let ghost g = gcd(a as nat, b as nat);
    let mut a = a;
    let mut b = b;
    while b != 0
        invariant
            gcd(a as nat, b as nat) == g,
        decreases b,
    {
        let t = b;
        b = a % b;
        a = t;
    }
    a
}

/// The gcd divides both numbers, and is zero only when both are.
pub proof fn lemma_gcd_divides(a: nat, b: nat)
    ensures
        gcd(a, b) > 0 ==> a % gcd(a, b) == 0 && b % gcd(a, b) == 0,
        gcd(a, b) == 0 <==> a == 0 && b == 0,
    decreases b,
{
    if b > 0 {
        lemma_gcd_divides(b, a % b);
        let g = gcd(b, a % b);
        if g > 0 {
            vstd::arithmetic::div_mod::lemma_fundamental_div_mod(a as int, b as int);
            let q = a / b;
            let r = a % b;
            let kb = b / g;
            let kr = r / g;
            vstd::arithmetic::div_mod::lemma_fundamental_div_mod(b as int, g as int);
            vstd::arithmetic::div_mod::lemma_fundamental_div_mod(r as int, g as int);
            assert(a == g * (q * kb + kr)) by (nonlinear_arith)
                requires
                    a == b * q + r,
                    b == g * kb,
                    r == g * kr,
            ;
            vstd::arithmetic::div_mod::lemma_mod_multiples_basic((q * kb + kr) as int, g as int);
            assert(g * (q * kb + kr) == (q * kb + kr) * g) by (nonlinear_arith);
        }
    }
}

/// Gaps between consecutive entries `0..=i` folded by gcd (zero gaps skipped).
pub open spec fn gaps_gcd(s: Seq<u32>, i: nat) -> nat
    decreases i,
{
    if i == 0 {
        0
    } else {
        let g = gaps_gcd(s, (i - 1) as nat);
        let d: nat = if s[i as int] > s[i - 1] {
            (s[i as int] - s[i - 1]) as nat
        } else {
            0
        };
        if d == 0 {
            g
        } else if g == 0 {
            d
        } else {
            gcd(g, d)
        }
    }
}

proof fn lemma_gcd_le(a: nat, b: nat)
    requires
        a > 0,
    ensures
        gcd(a, b) <= a || b == 0,
        gcd(a, b) <= b || b == 0,
    decreases b,
{
    if b > 0 {
        lemma_gcd_divides(a, b);
        let g = gcd(a, b);
        if g > 0 {
            vstd::arithmetic::div_mod::lemma_mod_is_zero(a as nat, g as nat);
            vstd::arithmetic::div_mod::lemma_mod_is_zero(b as nat, g as nat);
        }
    }
}

proof fn lemma_gaps_gcd_bound(s: Seq<u32>, i: nat)
    requires
        i < s.len(),
    ensures
        gaps_gcd(s, i) <= u32::MAX,
    decreases i,
{
    if i > 0 {
        lemma_gaps_gcd_bound(s, (i - 1) as nat);
        let g = gaps_gcd(s, (i - 1) as nat);
        let d: nat = if s[i as int] > s[i - 1] {
            (s[i as int] - s[i - 1]) as nat
        } else {
            0
        };
        if d > 0 && g > 0 {
            lemma_gcd_le(g, d);
        }
    }
}

/// The spacing of sorted distinct coordinates: gcd of their gaps (`None`
/// for fewer than two or when no gap is positive).
pub fn gcd_gaps(sorted_unique: &[u32]) -> (r: Option<u32>)
    ensures
        sorted_unique@.len() < 2 ==> r is None,
        sorted_unique@.len() >= 2 ==> r == (if gaps_gcd(sorted_unique@, (sorted_unique@.len() - 1) as nat) == 0 {
            None::<u32>
        } else {
            Some(gaps_gcd(sorted_unique@, (sorted_unique@.len() - 1) as nat) as u32)
        }),
{
    if sorted_unique.len() < 2 {
        return None;
    }
    let mut g: u32 = 0;
    let mut i: usize = 1;
    while i < sorted_unique.len()
        invariant
            1 <= i <= sorted_unique@.len(),
            g == gaps_gcd(sorted_unique@, (i - 1) as nat),
        decreases sorted_unique.len() - i,
    {
        let d = sorted_unique[i].saturating_sub(sorted_unique[i - 1]);
        proof {
            lemma_gaps_gcd_bound(sorted_unique@, i as nat);
        }
        if d != 0 {
            g = if g == 0 {
                d
            } else {
                gcd_u32(g, d)
            };
        }
        i += 1;
    }
    if g == 0 {
        None
    } else {
        Some(g)
    }
}

} // verus!
