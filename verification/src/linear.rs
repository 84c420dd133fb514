//! Linear region file format (`.linear`): v1 (one zstd blob after a
//! 32-byte header) and v2 (a grid of independently compressed buckets).

use vstd::prelude::*;
use crate::bigendian::{
    append_bytes, be_bytes, be_value, copy_range, lemma_be_bytes_len, lemma_be_roundtrip_small,
    lemma_be_value_bound, lemma_pow256_values, lemma_twos_roundtrip, pow256, push_be, read_be,
    signed_of, twos,
};
use crate::text::{append_str, chars_of, int_text, nat_text, push_int, push_nat, string_of};

verus! {

pub const LINEAR_SIGNATURE: u64 = 0xc3ff_1318_3cca_9d9a;

pub const CHUNK_COUNT: usize = 1024;

pub const DEFAULT_V1_COMPRESSION: i8 = 6;

pub const DEFAULT_V2_GRID: u8 = 2;

// ---------------------------------------------------------------------------
// zstd

/// The frame `zstd::encode_all` produces for `data` at `level`.
pub uninterp spec fn zstd_encoded(data: Seq<u8>, level: i32) -> Seq<u8>;

/// What `zstd::decode_all` yields for `frame`: the decompressed bytes, or
/// `None` where it reports an error.
pub uninterp spec fn zstd_decode_result(frame: Seq<u8>) -> Option<Seq<u8>>;

/// Compresses `data` with `zstd::encode_all`. The frame is named by
/// `zstd_encoded`; as the crate documents, `decode_all` on that frame gives
/// `data` back. `encode_all` copies a slice into an encoder writing to a
/// `Vec`, neither of which has an error path of its own, so at a level zstd
/// accepts (1 to 22) it succeeds. Nothing bounds the frame's length: the
/// encoder streams, and zstd documents its compress bound for one-pass
/// compression only.
#[verifier::external_body]
fn zstd_encode(data: &[u8], level: i32) -> (r: Result<Vec<u8>, String>)
    ensures
        1 <= level <= 22 ==> r is Ok,
        r is Ok ==> r->Ok_0@ == zstd_encoded(data@, level),
        r is Ok ==> zstd_decode_result(r->Ok_0@) == Some(data@),
{
    match zstd::encode_all(data, level) {
        Ok(v) => Ok(v),
        Err(e) => Err(e.to_string()),
    }
}

/// Decompresses a zstd stream with `zstd::decode_all`; the outcome is
/// `zstd_decode_result` of the input, the error carries the crate's message.
#[verifier::external_body]
fn zstd_decode(frame: &[u8]) -> (r: Result<Vec<u8>, String>)
    ensures
        match r {
            Ok(d) => zstd_decode_result(frame@) == Some(d@),
            Err(_) => zstd_decode_result(frame@) is None,
        },
{
    match zstd::decode_all(frame) {
        Ok(v) => Ok(v),
        Err(e) => Err(e.to_string()),
    }
}

// ---------------------------------------------------------------------------
// The region model

#[derive(Clone, Copy, Debug, PartialEq, Eq, Structural)]
pub enum LinearVersion {
    V1,
    V2,
}

#[derive(Clone, Debug)]
pub struct LinearRegion {
    pub version: LinearVersion,
    pub region_x: i32,
    pub region_z: i32,
    pub newest_timestamp: u64,
    /// Per-chunk uncompressed NBT bytes (Anvil chunk payload, no length/compression header).
    pub chunks: Vec<Option<Vec<u8>>>,
    pub timestamps: Vec<u32>,
    /// v2 only
    pub grid_size: u8,
}

#[verifier::ext_equal]
pub struct LinearView {
    pub version: LinearVersion,
    pub region_x: i32,
    pub region_z: i32,
    pub newest_timestamp: u64,
    pub chunks: Seq<Option<Seq<u8>>>,
    pub timestamps: Seq<u32>,
    pub grid_size: u8,
}

pub open spec fn chunk_view(c: Option<Vec<u8>>) -> Option<Seq<u8>> {
    match c {
        Some(v) => Some(v@),
        None => None,
    }
}

pub open spec fn chunks_view(c: Seq<Option<Vec<u8>>>) -> Seq<Option<Seq<u8>>> {
    Seq::new(c.len(), |i: int| chunk_view(c[i]))
}

impl View for LinearRegion {
    type V = LinearView;

    open spec fn view(&self) -> LinearView {
        LinearView {
            version: self.version,
            region_x: self.region_x,
            region_z: self.region_z,
            newest_timestamp: self.newest_timestamp,
            chunks: chunks_view(self.chunks@),
            timestamps: self.timestamps@,
            grid_size: self.grid_size,
        }
    }
}

/// Number of present chunks among the first `n`.
pub open spec fn count_present(c: Seq<Option<Seq<u8>>>, n: nat) -> nat
    decreases n,
{
    if n == 0 {
        0
    } else if c[n - 1] is Some {
        count_present(c, (n - 1) as nat) + 1
    } else {
        count_present(c, (n - 1) as nat)
    }
}

/// Largest timestamp of a present chunk among the first `n` (0 if none).
pub open spec fn newest_present(c: Seq<Option<Seq<u8>>>, ts: Seq<u32>, n: nat) -> nat
    decreases n,
{
    if n == 0 {
        0
    } else {
        let rest = newest_present(c, ts, (n - 1) as nat);
        if c[n - 1] is Some && ts[n - 1] > rest {
            ts[n - 1] as nat
        } else {
            rest
        }
    }
}

proof fn lemma_count_present_bound(c: Seq<Option<Seq<u8>>>, n: nat)
    ensures
        count_present(c, n) <= n,
    decreases n,
{
    if n > 0 {
        lemma_count_present_bound(c, (n - 1) as nat);
    }
}

proof fn lemma_newest_present_bound(c: Seq<Option<Seq<u8>>>, ts: Seq<u32>, n: nat)
    ensures
        newest_present(c, ts, n) <= u32::MAX,
    decreases n,
{
    if n > 0 {
        lemma_newest_present_bound(c, ts, (n - 1) as nat);
    }
}

impl LinearRegion {
    /// An empty v1 region at the given region coordinates.
    pub fn empty(region_x: i32, region_z: i32) -> (r: Self)
        ensures
            r@ == (LinearView {
                version: LinearVersion::V1,
                region_x,
                region_z,
                newest_timestamp: 0,
                chunks: Seq::new(1024, |i: int| None::<Seq<u8>>),
                timestamps: Seq::new(1024, |i: int| 0u32),
                grid_size: 2,
            }),
    {
        let mut chunks: Vec<Option<Vec<u8>>> = Vec::new();
        let mut timestamps: Vec<u32> = Vec::new();
        let mut i: usize = 0;
        while i < CHUNK_COUNT
            invariant
                i <= 1024,
                chunks@.len() == i,
                timestamps@.len() == i,
                forall|j: int| 0 <= j < i ==> (#[trigger] chunks@[j]) is None,
                forall|j: int| 0 <= j < i ==> #[trigger] timestamps@[j] == 0,
            decreases 1024 - i,
        {
            chunks.push(None);
            timestamps.push(0);
            i += 1;
        }
        let r = LinearRegion {
            version: LinearVersion::V1,
            region_x,
            region_z,
            newest_timestamp: 0,
            chunks,
            timestamps,
            grid_size: DEFAULT_V2_GRID,
        };
        assert(r@.chunks =~= Seq::new(1024, |i: int| None::<Seq<u8>>));
        assert(r@.timestamps =~= Seq::new(1024, |i: int| 0u32));
        r
    }

    /// Position of a chunk in the 32×32 table (row-major by z).
    pub fn chunk_index(local_x: u8, local_z: u8) -> (r: usize)
        ensures
            r == local_z * 32 + local_x,
    {
        (local_z as usize) * 32 + (local_x as usize)
    }

    /// The chunk's bytes, if present.
    pub fn get(&self, local_x: u8, local_z: u8) -> (r: Option<&[u8]>)
        requires
            local_z * 32 + local_x < self.chunks@.len(),
        ensures
            match r {
                Some(s) => self@.chunks[local_z * 32 + local_x] == Some(s@),
                None => self@.chunks[local_z * 32 + local_x] is None,
            },
    {
        let i = Self::chunk_index(local_x, local_z);
        match &self.chunks[i] {
            Some(v) => Some(v.as_slice()),
            None => None,
        }
    }

    /// Stores (or clears) a chunk. Storing raises the region's newest
    /// timestamp to `timestamp` if it is larger; clearing zeroes the
    /// chunk's timestamp.
    pub fn set(&mut self, local_x: u8, local_z: u8, nbt: Option<Vec<u8>>, timestamp: u32)
        requires
            local_z * 32 + local_x < old(self).chunks@.len(),
            local_z * 32 + local_x < old(self).timestamps@.len(),
        ensures
            ({
                let i = local_z * 32 + local_x;
                let before = old(self)@;
                final(self)@ == (match nbt {
                    Some(b) => LinearView {
                        newest_timestamp: if timestamp > before.newest_timestamp {
                            timestamp as u64
                        } else {
                            before.newest_timestamp
                        },
                        chunks: before.chunks.update(i, Some(b@)),
                        timestamps: before.timestamps.update(i, timestamp),
                        ..before
                    },
                    None => LinearView {
                        chunks: before.chunks.update(i, None),
                        timestamps: before.timestamps.update(i, 0),
                        ..before
                    },
                })
            }),
    {
        let i = Self::chunk_index(local_x, local_z);
        let ghost before = self@;
        match nbt {
            Some(bytes) => {
                if timestamp as u64 > self.newest_timestamp {
                    self.newest_timestamp = timestamp as u64;
                }
                self.timestamps.set(i, timestamp);
                let ghost bv = bytes@;
                self.chunks.set(i, Some(bytes));
                assert(self@.chunks =~= before.chunks.update(i as int, Some(bv)));
            },
            None => {
                self.timestamps.set(i, 0);
                self.chunks.set(i, None);
                assert(self@.chunks =~= before.chunks.update(i as int, None));
            },
        }
    }

    /// Number of present chunks.
    pub fn present_count(&self) -> (r: usize)
        ensures
            r == count_present(self@.chunks, self@.chunks.len()),
    {
        let mut n: usize = 0;
        let mut i: usize = 0;
        while i < self.chunks.len()
            invariant
                i <= self.chunks@.len(),
                n == count_present(self@.chunks, i as nat),
                n <= i,
            decreases self.chunks.len() - i,
        {
            if self.chunks[i].is_some() {
                n += 1;
            }
            i += 1;
        }
        n
    }
}

// ---------------------------------------------------------------------------
// Version detection

pub open spec fn signature_bytes() -> Seq<u8> {
    be_bytes(LINEAR_SIGNATURE as nat, 8)
}

/// Which Linear version the bytes announce, or why they are not Linear.
pub open spec fn detect_spec(b: Seq<u8>) -> Result<LinearVersion, Seq<char>> {
    if b.len() < 9 {
        Err("linear: file too short"@)
    } else if be_value(b.subrange(0, 8)) != LINEAR_SIGNATURE {
        Err("linear: bad signature"@)
    } else if b[8] == 1 {
        Ok(LinearVersion::V1)
    } else if b[8] == 2 {
        Ok(LinearVersion::V2)
    } else {
        Err("linear: unsupported version "@ + nat_text(b[8] as nat))
    }
}

/// Detect Linear version from raw file bytes (signature + version byte).
pub fn detect_linear_version(bytes: &[u8]) -> (r: Result<LinearVersion, String>)
    ensures
        match detect_spec(bytes@) {
            Ok(v) => r == Ok::<LinearVersion, String>(v),
            Err(m) => r is Err && r->Err_0@ == m,
        },
{
    if bytes.len() < 9 {
        return Err(string_of(&chars_of("linear: file too short")));
    }
    let sig = read_be(bytes, 0, 8);
    if sig != LINEAR_SIGNATURE {
        return Err(string_of(&chars_of("linear: bad signature")));
    }
    if bytes[8] == 1 {
        Ok(LinearVersion::V1)
    } else if bytes[8] == 2 {
        Ok(LinearVersion::V2)
    } else {
        let mut m = chars_of("linear: unsupported version ");
        push_nat(&mut m, bytes[8] as u64);
        Err(string_of(&m))
    }
}

pub fn is_linear_file(bytes: &[u8]) -> (r: bool)
    ensures
        r == detect_spec(bytes@) is Ok,
{
    match detect_linear_version(bytes) {
        Ok(_) => true,
        Err(_) => false,
    }
}

// ---------------------------------------------------------------------------
// Linear v1

/// The 32-byte header and 8-byte footer around the compressed blob: the
/// newest timestamp, the chunk count and the blob, or why they are rejected.
pub open spec fn v1_header(b: Seq<u8>) -> Result<(u64, int, Seq<u8>), Seq<char>> {
    if b.len() < 40 {
        Err("linear v1: truncated"@)
    } else if be_value(b.subrange(0, 8)) != LINEAR_SIGNATURE {
        Err("linear v1: bad header signature"@)
    } else if b[8] != 1 {
        Err("linear v1: unexpected version "@ + nat_text(b[8] as nat))
    } else if be_value(b.subrange(b.len() - 8, b.len() as int)) != LINEAR_SIGNATURE {
        Err("linear v1: bad footer signature"@)
    } else if b.len() - 40 != be_value(b.subrange(20, 24)) {
        Err(
            "linear v1: compressed length mismatch (header="@ + nat_text(be_value(b.subrange(20, 24)))
                + " actual="@ + nat_text((b.len() - 40) as nat) + ")"@,
        )
    } else {
        Ok(
            (
                be_value(b.subrange(9, 17)) as u64,
                signed_of(be_value(b.subrange(18, 20)), 2),
                b.subrange(32, b.len() - 8),
            ),
        )
    }
}

/// Declared size of chunk `i` in a decompressed v1 payload.
pub open spec fn v1_size(d: Seq<u8>, i: int) -> nat {
    be_value(d.subrange(8 * i, 8 * i + 4))
}

/// Declared timestamp of chunk `i` in a decompressed v1 payload.
pub open spec fn v1_stamp(d: Seq<u8>, i: int) -> u32 {
    be_value(d.subrange(8 * i + 4, 8 * i + 8)) as u32
}

/// Sum of the declared sizes of the first `n` chunks.
pub open spec fn v1_total(d: Seq<u8>, n: nat) -> nat
    decreases n,
{
    if n == 0 {
        0
    } else {
        v1_total(d, (n - 1) as nat) + v1_size(d, n - 1)
    }
}

/// How many of the first `n` chunks declare a nonzero size.
pub open spec fn v1_nonzero(d: Seq<u8>, n: nat) -> nat
    decreases n,
{
    if n == 0 {
        0
    } else if v1_size(d, n - 1) > 0 {
        v1_nonzero(d, (n - 1) as nat) + 1
    } else {
        v1_nonzero(d, (n - 1) as nat)
    }
}

/// Chunk `i` of a decompressed v1 payload.
pub open spec fn v1_chunk(d: Seq<u8>, i: int) -> Option<Seq<u8>> {
    if v1_size(d, i) > 0 {
        {
            let start = 8192 + v1_total(d, i as nat);
            Some(d.subrange(start as int, (start + v1_size(d, i)) as int))
        }
    } else {
        None
    }
}

/// The region a decompressed v1 payload describes, or why it is rejected.
pub open spec fn v1_body(newest: u64, count: int, d: Seq<u8>) -> Result<LinearView, Seq<char>> {
    if d.len() < 8192 {
        Err("linear v1: decompressed too short"@)
    } else if 8192 + v1_total(d, 1024) != d.len() {
        Err("linear v1: decompressed size invalid"@)
    } else if v1_nonzero(d, 1024) != count {
        Err(
            "linear v1: chunk count mismatch (header="@ + int_text(count) + " actual="@ + nat_text(
                v1_nonzero(d, 1024),
            ) + ")"@,
        )
    } else {
        Ok(
            LinearView {
                version: LinearVersion::V1,
                region_x: 0,
                region_z: 0,
                newest_timestamp: newest,
                chunks: Seq::new(1024, |i: int| v1_chunk(d, i)),
                timestamps: Seq::new(1024, |i: int| v1_stamp(d, i)),
                grid_size: 2,
            },
        )
    }
}

proof fn lemma_v1_total_step(d: Seq<u8>, i: nat, n: nat)
    requires
        i < n,
    ensures
        v1_total(d, i) + v1_size(d, i as int) <= v1_total(d, n),
    decreases n,
{
    if i + 1 < n {
        lemma_v1_total_step(d, i, (n - 1) as nat);
    }
}

proof fn lemma_v1_nonzero_bound(d: Seq<u8>, n: nat)
    ensures
        v1_nonzero(d, n) <= n,
    decreases n,
{
    if n > 0 {
        lemma_v1_nonzero_bound(d, (n - 1) as nat);
    }
}

proof fn lemma_v1_total_bound(d: Seq<u8>, n: nat)
    requires
        d.len() >= 8 * n,
    ensures
        v1_total(d, n) <= n * 0xffff_ffff,
    decreases n,
{
    if n > 0 {
        lemma_v1_total_bound(d, (n - 1) as nat);
        lemma_be_value_bound(d.subrange(8 * (n - 1), 8 * (n - 1) + 4));
        lemma_pow256_values();
    }
}

/// Parses a decompressed v1 payload into a region.
pub fn parse_linear_v1_payload(newest: u64, count: i16, d: &[u8]) -> (r: Result<LinearRegion, String>)
    ensures
        match v1_body(newest, count as int, d@) {
            Ok(v) => r is Ok && r->Ok_0@ == v,
            Err(m) => r is Err && r->Err_0@ == m,
        },
{
    if d.len() < 8192 {
        return Err(string_of(&chars_of("linear v1: decompressed too short")));
    }
    let mut sizes: Vec<u64> = Vec::new();
    let mut timestamps: Vec<u32> = Vec::new();
    let mut real_count: u64 = 0;
    let mut total: u64 = 0;
    let mut i: usize = 0;
    while i < CHUNK_COUNT
        invariant
            i <= 1024,
            d@.len() >= 8192,
            d.len() == d@.len(),
            sizes@.len() == i,
            timestamps@.len() == i,
            forall|j: int| 0 <= j < i ==> #[trigger] sizes@[j] == v1_size(d@, j),
            forall|j: int| 0 <= j < i ==> #[trigger] timestamps@[j] == v1_stamp(d@, j),
            total == v1_total(d@, i as nat),
            total <= i * 0xffff_ffff,
            real_count == v1_nonzero(d@, i as nat),
        decreases 1024 - i,
    {
        let off = i * 8;
        let size = read_be(d, off, 4);
        let ts = read_be(d, off + 4, 4);
        proof {
            lemma_be_value_bound(d@.subrange(off as int, off + 4));
            lemma_be_value_bound(d@.subrange(off + 4, off + 8));
            lemma_pow256_values();
            lemma_v1_total_bound(d@, i as nat);
            lemma_v1_nonzero_bound(d@, i as nat);
            assert(i * 0xffff_ffff <= 1024 * 0xffff_ffff) by (nonlinear_arith)
                requires
                    i <= 1024,
            ;
        }
        if size > 0 {
            real_count += 1;
        }
        total += size;
        sizes.push(size);
        timestamps.push(ts as u32);
        i += 1;
    }
    if 8192 + total != d.len() as u64 {
        return Err(string_of(&chars_of("linear v1: decompressed size invalid")));
    }
    if count < 0 || real_count != count as u64 {
        let mut m = chars_of("linear v1: chunk count mismatch (header=");
        push_int(&mut m, count as i64);
        append_str(&mut m, " actual=");
        push_nat(&mut m, real_count);
        append_str(&mut m, ")");
        return Err(string_of(&m));
    }
    let mut chunks: Vec<Option<Vec<u8>>> = Vec::new();
    let mut cursor: usize = 8192;
    let mut k: usize = 0;
    while k < CHUNK_COUNT
        invariant
            k <= 1024,
            d.len() == d@.len(),
            8192 + v1_total(d@, 1024) == d@.len(),
            sizes@.len() == 1024,
            forall|j: int| 0 <= j < 1024 ==> #[trigger] sizes@[j] == v1_size(d@, j),
            chunks@.len() == k,
            cursor == 8192 + v1_total(d@, k as nat),
            forall|j: int| 0 <= j < k ==> #[trigger] chunk_view(chunks@[j]) == v1_chunk(d@, j),
        decreases 1024 - k,
    {
        let size = sizes[k];
        proof {
            lemma_v1_total_step(d@, k as nat, 1024);
        }
        if size > 0 {
            let end: usize = cursor + size as usize;
            let piece = copy_range(d, cursor, end);
            chunks.push(Some(piece));
            cursor = end;
        } else {
            chunks.push(None);
        }
        k += 1;
    }
    let r = LinearRegion {
        version: LinearVersion::V1,
        region_x: 0,
        region_z: 0,
        newest_timestamp: newest,
        chunks,
        timestamps,
        grid_size: DEFAULT_V2_GRID,
    };
    assert(r@.chunks =~= Seq::new(1024, |i: int| v1_chunk(d@, i)));
    assert(r@.timestamps =~= Seq::new(1024, |i: int| v1_stamp(d@, i)));
    Ok(r)
}

/// Linear v1: whole-region zstd blob after 32-byte header.
pub fn read_linear_v1(bytes: &[u8]) -> (r: Result<LinearRegion, String>)
    ensures
        match read_v1_spec(bytes@) {
            Ok(v) => r is Ok && r->Ok_0@ == v,
            Err(m) => r is Err && (m.len() > 0 ==> r->Err_0@ == m),
        },
{
    if bytes.len() < 40 {
        return Err(string_of(&chars_of("linear v1: truncated")));
    }
    let sig = read_be(bytes, 0, 8);
    if sig != LINEAR_SIGNATURE {
        return Err(string_of(&chars_of("linear v1: bad header signature")));
    }
    let version = bytes[8];
    if version != 1 {
        let mut m = chars_of("linear v1: unexpected version ");
        push_nat(&mut m, version as u64);
        return Err(string_of(&m));
    }
    let newest = read_be(bytes, 9, 8);
    let count_bits = read_be(bytes, 18, 2);
    let compressed_len = read_be(bytes, 20, 4);
    let footer = read_be(bytes, bytes.len() - 8, 8);
    if footer != LINEAR_SIGNATURE {
        return Err(string_of(&chars_of("linear v1: bad footer signature")));
    }
    let actual = bytes.len() - 40;
    if actual as u64 != compressed_len {
        let mut m = chars_of("linear v1: compressed length mismatch (header=");
        push_nat(&mut m, compressed_len);
        append_str(&mut m, " actual=");
        push_nat(&mut m, actual as u64);
        append_str(&mut m, ")");
        return Err(string_of(&m));
    }
    proof {
        lemma_be_value_bound(bytes@.subrange(18, 20));
        lemma_pow256_values();
    }
    let count: i16 = if count_bits >= 0x8000 {
        (count_bits as i32 - 0x1_0000) as i16
    } else {
        count_bits as i16
    };
    let compressed = copy_range(bytes, 32, bytes.len() - 8);
    match zstd_decode(compressed.as_slice()) {
        Err(e) => {
            let mut m = chars_of("linear v1: zstd decompress: ");
            append_str(&mut m, e.as_str());
            Err(string_of(&m))
        },
        Ok(d) => parse_linear_v1_payload(newest, count, d.as_slice()),
    }
}

/// Size and timestamp entry of one chunk in the v1 payload table.
pub open spec fn v1_entry(c: Option<Seq<u8>>, ts: u32) -> Seq<u8> {
    match c {
        Some(d) => be_bytes(d.len(), 4) + be_bytes(ts as nat, 4),
        None => be_bytes(0, 4) + be_bytes(0, 4),
    }
}

pub open spec fn v1_table(c: Seq<Option<Seq<u8>>>, ts: Seq<u32>, n: nat) -> Seq<u8>
    decreases n,
{
    if n == 0 {
        seq![]
    } else {
        v1_table(c, ts, (n - 1) as nat) + v1_entry(c[n - 1], ts[n - 1])
    }
}

pub open spec fn chunk_bytes(c: Option<Seq<u8>>) -> Seq<u8> {
    match c {
        Some(d) => d,
        None => seq![],
    }
}

pub open spec fn v1_data(c: Seq<Option<Seq<u8>>>, n: nat) -> Seq<u8>
    decreases n,
{
    if n == 0 {
        seq![]
    } else {
        v1_data(c, (n - 1) as nat) + chunk_bytes(c[n - 1])
    }
}

/// The uncompressed v1 payload: the 1024-entry table, then the chunk bytes.
pub open spec fn v1_payload(c: Seq<Option<Seq<u8>>>, ts: Seq<u32>) -> Seq<u8> {
    v1_table(c, ts, 1024) + v1_data(c, 1024)
}

pub open spec fn clamp_level(level: i8) -> i32 {
    if level < 1 {
        1
    } else if level > 22 {
        22
    } else {
        level as i32
    }
}

/// A v1 file: header, compressed blob, footer.
pub open spec fn v1_file(newest: nat, level: i8, count: nat, blob: Seq<u8>) -> Seq<u8> {
    signature_bytes() + seq![1u8] + be_bytes(newest, 8) + seq![twos(level as int, 1) as u8]
        + be_bytes(count, 2) + be_bytes(blob.len(), 4) + be_bytes(0, 8) + blob + signature_bytes()
}

/// The uncompressed v1 payload of a region.
pub fn linear_v1_payload(region: &LinearRegion) -> (r: Vec<u8>)
    requires
        region.chunks@.len() == 1024,
        region.timestamps@.len() == 1024,
    ensures
        r@ == v1_payload(region@.chunks, region@.timestamps),
{
    let ghost c = region@.chunks;
    let ghost ts = region@.timestamps;
    let mut inside: Vec<u8> = Vec::new();
    let mut body: Vec<u8> = Vec::new();
    let mut i: usize = 0;
    while i < CHUNK_COUNT
        invariant
            i <= 1024,
            c == region@.chunks,
            ts == region@.timestamps,
            region.chunks@.len() == 1024,
            region.timestamps@.len() == 1024,
            inside@ == v1_table(c, ts, i as nat),
            body@ == v1_data(c, i as nat),
        decreases 1024 - i,
    {
        assert(chunk_view(region.chunks@[i as int]) == c[i as int]);
        match &region.chunks[i] {
            Some(data) => {
                push_be(&mut inside, data.len() as u64, 4);
                push_be(&mut inside, region.timestamps[i] as u64, 4);
                append_bytes(&mut body, data.as_slice());
            },
            None => {
                push_be(&mut inside, 0, 4);
                push_be(&mut inside, 0, 4);
            },
        }
        proof {
            assert(inside@ =~= v1_table(c, ts, (i + 1) as nat));
            assert(body@ =~= v1_data(c, (i + 1) as nat));
        }
        i += 1;
    }
    let mut out = inside;
    append_bytes(&mut out, body.as_slice());
    out
}

/// Newest timestamp and count of the present chunks.
fn present_stats(region: &LinearRegion) -> (r: (u64, u16))
    requires
        region.chunks@.len() == 1024,
        region.timestamps@.len() == 1024,
    ensures
        r.0 == newest_present(region@.chunks, region@.timestamps, 1024),
        r.1 == count_present(region@.chunks, 1024),
{
    let ghost c = region@.chunks;
    let ghost ts = region@.timestamps;
    let mut newest: u64 = 0;
    let mut count: u16 = 0;
    let mut i: usize = 0;
    while i < CHUNK_COUNT
        invariant
            i <= 1024,
            c == region@.chunks,
            ts == region@.timestamps,
            region.chunks@.len() == 1024,
            region.timestamps@.len() == 1024,
            newest == newest_present(c, ts, i as nat),
            count == count_present(c, i as nat),
            count <= i,
        decreases 1024 - i,
    {
        assert(chunk_view(region.chunks@[i as int]) == c[i as int]);
        if region.chunks[i].is_some() {
            if region.timestamps[i] as u64 > newest {
                newest = region.timestamps[i] as u64;
            }
            count += 1;
        }
        i += 1;
    }
    (newest, count)
}

/// Lays out a v1 file around an already compressed payload.
pub fn assemble_linear_v1(region: &LinearRegion, compression_level: i8, compressed: &[u8]) -> (r: Vec<u8>)
    requires
        region.chunks@.len() == 1024,
        region.timestamps@.len() == 1024,
    ensures
        r@ == v1_file(
            newest_present(region@.chunks, region@.timestamps, 1024),
            compression_level,
            count_present(region@.chunks, 1024),
            compressed@,
        ),
{
    let (newest, count) = present_stats(region);
    let mut out: Vec<u8> = Vec::new();
    push_be(&mut out, LINEAR_SIGNATURE, 8);
    out.push(1);
    push_be(&mut out, newest, 8);
    let level_byte: u8 = if compression_level < 0 {
        (compression_level as i16 + 256) as u8
    } else {
        compression_level as u8
    };
    out.push(level_byte);
    push_be(&mut out, count as u64, 2);
    push_be(&mut out, compressed.len() as u64, 4);
    push_be(&mut out, 0, 8);
    append_bytes(&mut out, compressed);
    push_be(&mut out, LINEAR_SIGNATURE, 8);
    proof {
        lemma_pow256_values();
        assert(out@ =~= v1_file(
            newest_present(region@.chunks, region@.timestamps, 1024),
            compression_level,
            count_present(region@.chunks, 1024),
            compressed@,
        ));
    }
    out
}

/// Writes a region as Linear v1, compressing the payload with zstd at
/// `compression_level` clamped to 1..=22.
pub fn write_linear_v1(region: &LinearRegion, compression_level: i8) -> (r: Result<Vec<u8>, String>)
    requires
        region.chunks@.len() == 1024,
        region.timestamps@.len() == 1024,
    ensures
        r is Ok ==> r->Ok_0@ == v1_file(
            newest_present(region@.chunks, region@.timestamps, 1024),
            compression_level,
            count_present(region@.chunks, 1024),
            zstd_encoded(v1_payload(region@.chunks, region@.timestamps), clamp_level(compression_level)),
        ),
        r is Ok ==> zstd_decode_result(
            zstd_encoded(v1_payload(region@.chunks, region@.timestamps), clamp_level(compression_level)),
        ) == Some(v1_payload(region@.chunks, region@.timestamps)),
        r is Ok,
{
    let payload = linear_v1_payload(region);
    let level: i32 = if compression_level < 1 {
        1
    } else if compression_level > 22 {
        22
    } else {
        compression_level as i32
    };
    match zstd_encode(payload.as_slice(), level) {
        Err(e) => {
            let mut m = chars_of("linear v1: zstd compress: ");
            append_str(&mut m, e.as_str());
            Err(string_of(&m))
        },
        Ok(compressed) => Ok(assemble_linear_v1(region, compression_level, compressed.as_slice())),
    }
}

/// What reading a written v1 file gives: the chunks as they were, the
/// timestamps of present chunks (0 for absent ones), and the newest
/// timestamp among present chunks.
pub open spec fn v1_expected(c: Seq<Option<Seq<u8>>>, ts: Seq<u32>) -> LinearView {
    LinearView {
        version: LinearVersion::V1,
        region_x: 0,
        region_z: 0,
        newest_timestamp: newest_present(c, ts, 1024) as u64,
        chunks: c,
        timestamps: Seq::new(1024, |i: int| if c[i] is Some { ts[i] } else { 0u32 }),
        grid_size: 2,
    }
}

/// Every present chunk is nonempty and its length fits the 32-bit size field.
pub open spec fn storable(c: Seq<Option<Seq<u8>>>) -> bool {
    forall|i: int|
        0 <= i < c.len() && (#[trigger] c[i]) is Some ==> 0 < c[i]->0.len() < 0x1_0000_0000
}

proof fn lemma_v1_entry(c: Option<Seq<u8>>, ts: u32)
    requires
        c is Some ==> c->0.len() < 0x1_0000_0000,
    ensures
        v1_entry(c, ts).len() == 8,
        be_value(v1_entry(c, ts).subrange(0, 4)) == chunk_bytes(c).len(),
        be_value(v1_entry(c, ts).subrange(4, 8)) == (if c is Some { ts as nat } else { 0 }),
{
    lemma_pow256_values();
    let e = v1_entry(c, ts);
    match c {
        Some(d) => {
            lemma_be_bytes_len(d.len(), 4);
            lemma_be_bytes_len(ts as nat, 4);
            assert(e.subrange(0, 4) =~= be_bytes(d.len(), 4));
            assert(e.subrange(4, 8) =~= be_bytes(ts as nat, 4));
            lemma_be_roundtrip_small(d.len(), 4);
            lemma_be_roundtrip_small(ts as nat, 4);
        },
        None => {
            lemma_be_bytes_len(0, 4);
            assert(e.subrange(0, 4) =~= be_bytes(0, 4));
            assert(e.subrange(4, 8) =~= be_bytes(0, 4));
            lemma_be_roundtrip_small(0, 4);
        },
    }
}

proof fn lemma_v1_table(c: Seq<Option<Seq<u8>>>, ts: Seq<u32>, n: nat)
    requires
        n <= c.len(),
        n <= ts.len(),
        storable(c),
    ensures
        v1_table(c, ts, n).len() == 8 * n,
        forall|j: int|
            0 <= j < n ==> #[trigger] v1_table(c, ts, n).subrange(8 * j, 8 * j + 8) == v1_entry(
                c[j],
                ts[j],
            ),
    decreases n,
{
    if n > 0 {
        let m = (n - 1) as nat;
        lemma_v1_table(c, ts, m);
        if c[m as int] is Some {
            assert(c[m as int]->0.len() < 0x1_0000_0000);
        }
        lemma_v1_entry(c[m as int], ts[m as int]);
        let t = v1_table(c, ts, n);
        let prev = v1_table(c, ts, m);
        assert forall|j: int| 0 <= j < n implies #[trigger] t.subrange(8 * j, 8 * j + 8) == v1_entry(
            c[j],
            ts[j],
        ) by {
            if j < m {
                assert(t.subrange(8 * j, 8 * j + 8) =~= prev.subrange(8 * j, 8 * j + 8));
            } else {
                assert(t.subrange(8 * j, 8 * j + 8) =~= v1_entry(c[j], ts[j]));
            }
        }
    }
}

proof fn lemma_v1_data(c: Seq<Option<Seq<u8>>>, n: nat)
    requires
        n <= c.len(),
    ensures
        forall|j: int|
            0 <= j < n ==> #[trigger] v1_data(c, n).subrange(
                v1_data(c, j as nat).len() as int,
                (v1_data(c, j as nat).len() + chunk_bytes(c[j]).len()) as int,
            ) == chunk_bytes(c[j]),
        forall|j: nat| j <= n ==> #[trigger] v1_data(c, j).len() <= v1_data(c, n).len(),
    decreases n,
{
    if n > 0 {
        let m = (n - 1) as nat;
        lemma_v1_data(c, m);
        let t = v1_data(c, n);
        assert forall|j: int| 0 <= j < n implies #[trigger] t.subrange(
            v1_data(c, j as nat).len() as int,
            (v1_data(c, j as nat).len() + chunk_bytes(c[j]).len()) as int,
        ) == chunk_bytes(c[j]) by {
            let a = v1_data(c, j as nat).len() as int;
            if j < m {
                assert(v1_data(c, (j + 1) as nat).len() <= v1_data(c, m).len());
                assert(t.subrange(a, a + chunk_bytes(c[j]).len()) =~= v1_data(c, m).subrange(
                    a,
                    a + chunk_bytes(c[j]).len(),
                ));
            } else {
                assert(t.subrange(a, a + chunk_bytes(c[j]).len()) =~= chunk_bytes(c[j]));
            }
        }
    }
}

proof fn lemma_v1_payload_fields(c: Seq<Option<Seq<u8>>>, ts: Seq<u32>, j: int)
    requires
        c.len() == 1024,
        ts.len() == 1024,
        storable(c),
        0 <= j < 1024,
    ensures
        v1_size(v1_payload(c, ts), j) == chunk_bytes(c[j]).len(),
        v1_stamp(v1_payload(c, ts), j) == (if c[j] is Some { ts[j] } else { 0u32 }),
{
    lemma_v1_table(c, ts, 1024);
    let p = v1_payload(c, ts);
    let t = v1_table(c, ts, 1024);
    let e = v1_entry(c[j], ts[j]);
    assert(t.subrange(8 * j, 8 * j + 8) == e);
    if c[j] is Some {
        assert(c[j]->0.len() < 0x1_0000_0000);
    }
    lemma_v1_entry(c[j], ts[j]);
    assert(p.subrange(8 * j, 8 * j + 4) =~= e.subrange(0, 4));
    assert(p.subrange(8 * j + 4, 8 * j + 8) =~= e.subrange(4, 8));
}

proof fn lemma_v1_payload_sums(c: Seq<Option<Seq<u8>>>, ts: Seq<u32>, n: nat)
    requires
        c.len() == 1024,
        ts.len() == 1024,
        storable(c),
        n <= 1024,
    ensures
        v1_total(v1_payload(c, ts), n) == v1_data(c, n).len(),
        v1_nonzero(v1_payload(c, ts), n) == count_present(c, n),
    decreases n,
{
    if n > 0 {
        let m = (n - 1) as nat;
        lemma_v1_payload_sums(c, ts, m);
        lemma_v1_payload_fields(c, ts, m as int);
        if c[m as int] is Some {
            assert(c[m as int]->0.len() > 0);
        }
    }
}

/// Reading back a written v1 file: for any blob that zstd decodes to the
/// payload, the header gives back the newest timestamp, the chunk count and
/// the blob, and the payload gives back the region (chunks unchanged, the
/// timestamps of present chunks, 0 for absent ones).
pub proof fn law_v1_roundtrip(c: Seq<Option<Seq<u8>>>, ts: Seq<u32>, level: i8, blob: Seq<u8>)
    requires
        c.len() == 1024,
        ts.len() == 1024,
        storable(c),
        blob.len() < 0x1_0000_0000,
    ensures
        v1_header(v1_file(newest_present(c, ts, 1024), level, count_present(c, 1024), blob)) == Ok::<
            (u64, int, Seq<u8>),
            Seq<char>,
        >((newest_present(c, ts, 1024) as u64, count_present(c, 1024) as int, blob)),
        v1_body(newest_present(c, ts, 1024) as u64, count_present(c, 1024) as int, v1_payload(c, ts))
            == Ok::<LinearView, Seq<char>>(v1_expected(c, ts)),
{
    let n = newest_present(c, ts, 1024);
    let k = count_present(c, 1024);
    lemma_newest_present_bound(c, ts, 1024);
    lemma_count_present_bound(c, 1024);
    lemma_pow256_values();
    // The header.
    let f = v1_file(n, level, k, blob);
    let sig = signature_bytes();
    lemma_be_bytes_len(LINEAR_SIGNATURE as nat, 8);
    lemma_be_bytes_len(n, 8);
    lemma_be_bytes_len(k, 2);
    lemma_be_bytes_len(blob.len(), 4);
    lemma_be_bytes_len(0, 8);
    lemma_be_roundtrip_small(LINEAR_SIGNATURE as nat, 8);
    lemma_be_roundtrip_small(n, 8);
    lemma_be_roundtrip_small(k, 2);
    lemma_be_roundtrip_small(blob.len(), 4);
    assert(f.len() == 40 + blob.len());
    assert(f.subrange(0, 8) =~= sig);
    assert(f[8] == 1u8);
    assert(f.subrange(9, 17) =~= be_bytes(n, 8));
    assert(f.subrange(18, 20) =~= be_bytes(k, 2));
    assert(f.subrange(20, 24) =~= be_bytes(blob.len(), 4));
    assert(f.subrange(f.len() - 8, f.len() as int) =~= sig);
    assert(f.subrange(32, f.len() - 8) =~= blob);
    assert(signed_of(k, 2) == k as int);
    // The payload.
    let p = v1_payload(c, ts);
    lemma_v1_table(c, ts, 1024);
    lemma_v1_data(c, 1024);
    lemma_v1_payload_sums(c, ts, 1024);
    assert(p.len() == 8192 + v1_data(c, 1024).len());
    let e = v1_expected(c, ts);
    assert forall|j: int| 0 <= j < 1024 implies #[trigger] v1_chunk(p, j) == c[j] by {
        lemma_v1_payload_fields(c, ts, j);
        lemma_v1_payload_sums(c, ts, j as nat);
        let start = 8192 + v1_data(c, j as nat).len();
        let dj = v1_data(c, j as nat).len() as int;
        let len = chunk_bytes(c[j]).len();
        assert(v1_data(c, 1024).subrange(
            v1_data(c, j as nat).len() as int,
            (v1_data(c, j as nat).len() + chunk_bytes(c[j]).len()) as int,
        ) == chunk_bytes(c[j]));
        assert(v1_data(c, (j + 1) as nat).len() <= v1_data(c, 1024).len());
        if c[j] is Some {
            assert(c[j]->0.len() > 0);
            assert(p.subrange(start as int, (start + len) as int) =~= v1_data(c, 1024).subrange(dj, dj + len));
        }
    }
    assert forall|j: int| 0 <= j < 1024 implies #[trigger] v1_stamp(p, j) == e.timestamps[j] by {
        lemma_v1_payload_fields(c, ts, j);
    }
    assert(Seq::new(1024, |i: int| v1_chunk(p, i)) =~= c);
    assert(Seq::new(1024, |i: int| v1_stamp(p, i)) =~= e.timestamps);
}

// ---------------------------------------------------------------------------
// Linear v2

/// What `ruzstd`'s `StreamingDecoder` yields for `frame` when read to the
/// end: the decompressed bytes, or `None` where it reports an error.
pub uninterp spec fn ruzstd_decode_result(frame: Seq<u8>) -> Option<Seq<u8>>;

/// The 64-bit xxHash of `data` with `seed`.
pub uninterp spec fn xxh64_digest(data: Seq<u8>, seed: u64) -> u64;

/// Why the pure-Rust zstd decoder gave up.
pub enum RuzstdFailure {
    /// The frame header was rejected.
    Decoder(String),
    /// Decoding the blocks failed.
    Read(String),
}

/// Decompresses one zstd frame with `ruzstd::decoding::StreamingDecoder`,
/// read to the end. The outcome is `ruzstd_decode_result` of the input; an
/// error says which of the two steps failed and carries the crate's message.
#[verifier::external_body]
fn ruzstd_decode(frame: &[u8]) -> (r: Result<Vec<u8>, RuzstdFailure>)
    ensures
        match r {
            Ok(d) => ruzstd_decode_result(frame@) == Some(d@),
            Err(_) => ruzstd_decode_result(frame@) is None,
        },
{
    match ruzstd::decoding::StreamingDecoder::new(frame) {
        Err(e) => Err(RuzstdFailure::Decoder(e.to_string())),
        Ok(mut decoder) => {
            let mut out = Vec::new();
            match std::io::Read::read_to_end(&mut decoder, &mut out) {
                Ok(_) => Ok(out),
                Err(e) => Err(RuzstdFailure::Read(e.to_string())),
            }
        },
    }
}

/// `xxhash_rust::xxh64::xxh64`; the digest is named by `xxh64_digest`.
#[verifier::external_body]
fn xxh64_of(data: &[u8], seed: u64) -> (r: u64)
    ensures
        r == xxh64_digest(data@, seed),
{
    xxhash_rust::xxh64::xxh64(data, seed)
}

/// libzstd first, the pure-Rust decoder where libzstd refuses.
pub open spec fn v2_decompress(frame: Seq<u8>) -> Option<Seq<u8>> {
    match zstd_decode_result(frame) {
        Some(d) => Some(d),
        None => ruzstd_decode_result(frame),
    }
}

/// Decompresses a bucket: libzstd for compatibility with other Linear
/// tooling, the pure-Rust decoder where libzstd refuses.
pub fn decompress_zstd_ruzstd_or_zstd(compressed: &[u8]) -> (r: Result<Vec<u8>, String>)
    ensures
        match v2_decompress(compressed@) {
            Some(d) => r is Ok && r->Ok_0@ == d,
            None => r is Err,
        },
{
    match zstd_decode(compressed) {
        Ok(d) => Ok(d),
        Err(_) => match ruzstd_decode(compressed) {
            Ok(d) => Ok(d),
            Err(RuzstdFailure::Decoder(e)) => {
                let mut m = chars_of("linear: zstd decoder: ");
                append_str(&mut m, e.as_str());
                Err(string_of(&m))
            },
            Err(RuzstdFailure::Read(e)) => {
                let mut m = chars_of("linear: zstd read: ");
                append_str(&mut m, e.as_str());
                Err(string_of(&m))
            },
        },
    }
}

pub open spec fn valid_grid(g: u8) -> bool {
    g == 1 || g == 2 || g == 4 || g == 8 || g == 16 || g == 32
}

/// Chunks per bucket for a grid size.
pub open spec fn chunks_per_bucket(g: u8) -> nat {
    (1024int / (g as int * g as int)) as nat
}

/// Table index of chunk `local` of bucket `bucket` in a `g`×`g` bucket grid.
pub open spec fn global_index(bucket: nat, local: nat, g: nat) -> int {
    let stride = 32nat / g;
    let cz = (bucket / g) * stride + local / stride;
    let cx = (bucket % g) * stride + local % stride;
    (cz * 32 + cx) as int
}

/// Table index of chunk `local` of bucket `bucket_idx` in a
/// `grid_size`×`grid_size` bucket grid.
pub fn global_chunk_index(bucket_idx: usize, local: usize, grid_size: u8) -> (r: usize)
    requires
        0 < grid_size <= 32,
        global_index(bucket_idx as nat, local as nat, grid_size as nat) <= usize::MAX,
    ensures
        r == global_index(bucket_idx as nat, local as nat, grid_size as nat),
{
    let g = grid_size as usize;
    assert(32usize / g >= 1) by (nonlinear_arith)
        requires
            0 < g <= 32,
    ;
    let stride = 32 / g;
    let bucket_row = bucket_idx / g;
    let bucket_col = bucket_idx % g;
    let local_row = local / stride;
    let local_col = local % stride;
    proof {
        let cz = bucket_row * stride + local_row;
        let cx = bucket_col * stride + local_col;
        assert(0 <= bucket_row * stride <= cz * 32) by (nonlinear_arith)
            requires
                cz == bucket_row * stride + local_row,
                bucket_row >= 0,
                stride >= 0,
                local_row >= 0,
        ;
        assert(0 <= bucket_col * stride) by (nonlinear_arith)
            requires
                bucket_col >= 0,
                stride >= 0,
        ;
    }
    let cz = bucket_row * stride + local_row;
    let cx = bucket_col * stride + local_col;
    cz * 32 + cx
}

proof fn lemma_global_index_bound(bucket: nat, local: nat, g: u8)
    requires
        valid_grid(g),
        bucket < g * g,
        local < chunks_per_bucket(g),
    ensures
        0 <= global_index(bucket, local, g as nat) < 1024,
{
    let gn = g as nat;
    let stride = 32nat / gn;
    let cpb = chunks_per_bucket(g);
    assert(cpb == 1024nat / (gn * gn));
    assert(stride * gn == 32 && stride * stride == cpb) by (nonlinear_arith)
        requires
            gn == 1 || gn == 2 || gn == 4 || gn == 8 || gn == 16 || gn == 32,
            stride == 32nat / gn,
            cpb == 1024nat / (gn * gn),
    ;
    let row = bucket / gn;
    let col = bucket % gn;
    assert(row < gn && col < gn) by (nonlinear_arith)
        requires
            bucket < gn * gn,
            gn > 0,
            row == bucket / gn,
            col == bucket % gn,
    ;
    let lr = local / stride;
    let lc = local % stride;
    assert(lr < stride && lc < stride) by (nonlinear_arith)
        requires
            local < stride * stride,
            stride > 0,
            lr == local / stride,
            lc == local % stride,
    ;
    assert(row * stride + lr < 32 && col * stride + lc < 32) by (nonlinear_arith)
        requires
            row < gn,
            col < gn,
            lr < stride,
            lc < stride,
            stride * gn == 32,
    ;
}

/// Position just past the feature dictionary that starts at `p`, or why it
/// is cut short.
pub open spec fn v2_features_end(b: Seq<u8>, p: nat) -> Result<nat, Seq<char>>
    decreases b.len() - p,
{
    if p >= b.len() {
        Err("linear v2: truncated features"@)
    } else if b[p as int] == 0 {
        Ok(p + 1)
    } else if b.len() - (p + 1) < b[p as int] + 4 {
        Err("linear v2: truncated feature entry"@)
    } else {
        v2_features_end(b, (p + 1 + b[p as int] + 4) as nat)
    }
}

/// The first `n` bucket entries (size, hash) from position `p`.
pub open spec fn v2_metas(b: Seq<u8>, p: nat, n: nat) -> Result<Seq<(nat, u64)>, Seq<char>>
    decreases n,
{
    if n == 0 {
        Ok(seq![])
    } else {
        match v2_metas(b, p, (n - 1) as nat) {
            Err(m) => Err(m),
            Ok(ms) => {
                let q = p + 13 * (n - 1);
                if b.len() - q < 13 {
                    Err("linear v2: truncated bucket meta"@)
                } else {
                    Ok(
                        ms.push(
                            (
                                be_value(b.subrange(q, q + 4)),
                                be_value(b.subrange(q + 5, q + 13)) as u64,
                            ),
                        ),
                    )
                }
            },
        }
    }
}

/// Sum of the first `n` bucket sizes.
pub open spec fn metas_total(ms: Seq<(nat, u64)>, n: nat) -> nat
    decreases n,
{
    if n == 0 {
        0
    } else {
        metas_total(ms, (n - 1) as nat) + ms[n - 1].0
    }
}

/// The v2 superblock, bucket table and footer, checked.
pub struct V2Header {
    pub newest: u64,
    pub grid: u8,
    pub region_x: i32,
    pub region_z: i32,
    pub metas: Seq<(nat, u64)>,
    /// Where the first compressed bucket starts.
    pub data: nat,
}

pub open spec fn v2_header(b: Seq<u8>) -> Result<V2Header, Seq<char>> {
    if b.len() < 26 {
        Err("linear v2: truncated superblock"@)
    } else if be_value(b.subrange(0, 8)) != LINEAR_SIGNATURE {
        Err("linear v2: bad header signature"@)
    } else if b[8] != 2 {
        Err("linear v2: bad version"@)
    } else if !valid_grid(b[17]) {
        Err("linear v2: bad grid_size "@ + nat_text(b[17] as nat))
    } else if b.len() - 26 < 128 {
        Err("linear v2: truncated bitmap"@)
    } else {
        match v2_features_end(b, 154) {
            Err(m) => Err(m),
            Ok(p) => {
                let n = (b[17] * b[17]) as nat;
                match v2_metas(b, p, n) {
                    Err(m) => Err(m),
                    Ok(ms) => {
                        let q = p + 13 * n;
                        let total = metas_total(ms, n);
                        if b.len() - q < total + 8 {
                            Err("linear v2: truncated buckets/footer"@)
                        } else if be_value(b.subrange((q + total) as int, (q + total + 8) as int)) != LINEAR_SIGNATURE {
                            Err("linear v2: bad footer signature"@)
                        } else {
                            Ok(
                                V2Header {
                                    newest: be_value(b.subrange(9, 17)) as u64,
                                    grid: b[17],
                                    region_x: signed_of(be_value(b.subrange(18, 22)), 4) as i32,
                                    region_z: signed_of(be_value(b.subrange(22, 26)), 4) as i32,
                                    metas: ms,
                                    data: q,
                                },
                            )
                        }
                    },
                }
            },
        }
    }
}

/// Chunks and timestamps as they are filled in.
pub type Tables = (Seq<Option<Seq<u8>>>, Seq<u32>);

/// The records of one decompressed bucket from record `local` on, read at
/// `pos`, applied to `acc`.
pub open spec fn v2_records(d: Seq<u8>, bucket: nat, g: u8, local: nat, pos: nat, acc: Tables) -> Result<
    Tables,
    Seq<char>,
>
    decreases chunks_per_bucket(g) - local,
{
    if local >= chunks_per_bucket(g) {
        Ok(acc)
    } else if d.len() - pos < 12 {
        Err("linear v2: truncated chunk record"@)
    } else {
        let size = be_value(d.subrange(pos as int, (pos + 4) as int));
        let ts = be_value(d.subrange((pos + 4) as int, (pos + 12) as int));
        let idx = global_index(bucket, local, g as nat);
        let acc1 = (acc.0, acc.1.update(idx, (ts % 0x1_0000_0000) as u32));
        if size == 0 {
            v2_records(d, bucket, g, local + 1, pos + 12, acc1)
        } else if d.len() - (pos + 12) < size {
            Err("linear v2: truncated chunk data"@)
        } else {
            v2_records(
                d,
                bucket,
                g,
                local + 1,
                pos + 12 + size,
                (acc1.0.update(idx, Some(d.subrange((pos + 12) as int, (pos + 12 + size) as int))), acc1.1),
            )
        }
    }
}

/// Buckets from `i` on, starting at byte `pos`, applied to `acc`. A
/// decompression failure gives the empty message: the decoder's own message
/// is reported then.
pub open spec fn v2_buckets(b: Seq<u8>, h: V2Header, i: nat, pos: nat, acc: Tables) -> Result<
    Tables,
    Seq<char>,
>
    decreases h.metas.len() - i,
{
    if i >= h.metas.len() {
        Ok(acc)
    } else {
        let size = h.metas[i as int].0;
        let comp = b.subrange(pos as int, (pos + size) as int);
        if xxh64_digest(comp, 0) != h.metas[i as int].1 {
            Err("linear v2: xxhash mismatch bucket "@ + nat_text(i))
        } else {
            match v2_decompress(comp) {
                None => Err(seq![]),
                Some(d) => match v2_records(d, i, h.grid, 0, 0, acc) {
                    Err(m) => Err(m),
                    Ok(acc2) => v2_buckets(b, h, i + 1, pos + size, acc2),
                },
            }
        }
    }
}

pub open spec fn empty_tables() -> Tables {
    (Seq::new(1024, |i: int| None::<Seq<u8>>), Seq::new(1024, |i: int| 0u32))
}

/// What `read_linear_v2` gives for a file (an empty error message stands
/// for a message of the zstd decoders).
pub open spec fn read_v2_spec(b: Seq<u8>) -> Result<LinearView, Seq<char>> {
    match v2_header(b) {
        Err(m) => Err(m),
        Ok(h) => match v2_buckets(b, h, 0, h.data, empty_tables()) {
            Err(m) => Err(m),
            Ok(t) => Ok(
                LinearView {
                    version: LinearVersion::V2,
                    region_x: h.region_x,
                    region_z: h.region_z,
                    newest_timestamp: h.newest,
                    chunks: t.0,
                    timestamps: t.1,
                    grid_size: h.grid,
                },
            ),
        },
    }
}

proof fn lemma_features_end_bound(b: Seq<u8>, p: nat)
    ensures
        v2_features_end(b, p) is Ok ==> p < v2_features_end(b, p)->Ok_0 <= b.len(),
    decreases b.len() - p,
{
    if p < b.len() && b[p as int] != 0 && b.len() - (p + 1) >= b[p as int] + 4 {
        lemma_features_end_bound(b, (p + 1 + b[p as int] + 4) as nat);
    }
}

proof fn lemma_metas_len(b: Seq<u8>, p: nat, n: nat)
    ensures
        v2_metas(b, p, n) is Ok ==> v2_metas(b, p, n)->Ok_0.len() == n,
    decreases n,
{
    if n > 0 {
        lemma_metas_len(b, p, (n - 1) as nat);
    }
}

proof fn lemma_metas_err_persists(b: Seq<u8>, p: nat, m: nat, n: nat)
    requires
        m <= n,
        v2_metas(b, p, m) is Err,
    ensures
        v2_metas(b, p, n) == v2_metas(b, p, m),
    decreases n,
{
    if n > m {
        lemma_metas_err_persists(b, p, m, (n - 1) as nat);
    }
}

proof fn lemma_metas_total_step(ms: Seq<(nat, u64)>, i: nat, n: nat)
    requires
        i < n,
    ensures
        metas_total(ms, i) + ms[i as int].0 <= metas_total(ms, n),
    decreases n,
{
    if i + 1 < n {
        lemma_metas_total_step(ms, i, (n - 1) as nat);
    }
}

/// The checked v2 superblock and bucket table.
struct V2Superblock {
    newest: u64,
    grid: u8,
    region_x: i32,
    region_z: i32,
    sizes: Vec<u64>,
    hashes: Vec<u64>,
    data: usize,
}

spec fn superblock_view(sb: V2Superblock) -> V2Header {
    V2Header {
        newest: sb.newest,
        grid: sb.grid,
        region_x: sb.region_x,
        region_z: sb.region_z,
        metas: Seq::new(sb.sizes@.len(), |j: int| (sb.sizes@[j] as nat, sb.hashes@[j])),
        data: sb.data as nat,
    }
}

fn signed32(u: u64) -> (r: i32)
    requires
        u < 0x1_0000_0000,
    ensures
        r == signed_of(u as nat, 4),
{
    proof {
        lemma_pow256_values();
    }
    if u >= 0x8000_0000 {
        (u as i64 - 0x1_0000_0000) as i32
    } else {
        u as i32
    }
}

#[verifier::loop_isolation(false)]
fn parse_v2_superblock(bytes: &[u8]) -> (r: Result<V2Superblock, String>)
    ensures
        match v2_header(bytes@) {
            Ok(h) => r is Ok && superblock_view(r->Ok_0) == h && r->Ok_0.sizes@.len()
                == r->Ok_0.hashes@.len() && valid_grid(h.grid) && h.metas.len() == h.grid * h.grid
                && h.data + metas_total(h.metas, h.metas.len()) + 8 <= bytes@.len() && (forall|j: int|
                0 <= j < r->Ok_0.sizes@.len() ==> #[trigger] r->Ok_0.sizes@[j] < 0x1_0000_0000),
            Err(m) => r is Err && r->Err_0@ == m,
        },
{
    let ghost b = bytes@;
    if bytes.len() < 26 {
        return Err(string_of(&chars_of("linear v2: truncated superblock")));
    }
    let sig = read_be(bytes, 0, 8);
    if sig != LINEAR_SIGNATURE {
        return Err(string_of(&chars_of("linear v2: bad header signature")));
    }
    if bytes[8] != 2 {
        return Err(string_of(&chars_of("linear v2: bad version")));
    }
    let newest = read_be(bytes, 9, 8);
    let grid = bytes[17];
    let rx_bits = read_be(bytes, 18, 4);
    let rz_bits = read_be(bytes, 22, 4);
    proof {
        lemma_be_value_bound(b.subrange(18, 22));
        lemma_be_value_bound(b.subrange(22, 26));
        lemma_pow256_values();
    }
    let region_x = signed32(rx_bits);
    let region_z = signed32(rz_bits);
    if !(grid == 1 || grid == 2 || grid == 4 || grid == 8 || grid == 16 || grid == 32) {
        let mut m = chars_of("linear v2: bad grid_size ");
        push_nat(&mut m, grid as u64);
        return Err(string_of(&m));
    }
    if bytes.len() - 26 < 128 {
        return Err(string_of(&chars_of("linear v2: truncated bitmap")));
    }
    // Feature dictionary: (key length, key, 4-byte value) until a zero length.
    let mut p: usize = 154;
    let mut done = false;
    while !done
        invariant
            154 <= p <= bytes@.len(),
            !done ==> v2_features_end(b, 154) == v2_features_end(b, p as nat),
            done ==> v2_features_end(b, 154) == Ok::<nat, Seq<char>>(p as nat),
        decreases bytes@.len() - p + (if done { 0int } else { 1int }),
    {
        if p >= bytes.len() {
            return Err(string_of(&chars_of("linear v2: truncated features")));
        }
        let k = bytes[p] as usize;
        if k == 0 {
            p = p + 1;
            done = true;
        } else {
            if bytes.len() - (p + 1) < k + 4 {
                return Err(string_of(&chars_of("linear v2: truncated feature entry")));
            }
            p = p + 1 + k + 4;
        }
    }
    let ghost fp = p as nat;
    let n: usize = (grid as usize) * (grid as usize);
    let mut sizes: Vec<u64> = Vec::new();
    let mut hashes: Vec<u64> = Vec::new();
    let mut q: usize = p;
    let mut total: u64 = 0;
    let mut i: usize = 0;
    assert(Seq::new(0, |j: int| (sizes@[j] as nat, hashes@[j])) =~= Seq::<(nat, u64)>::empty());
    while i < n
        invariant
            i <= n,
            n == grid * grid,
            n <= 1024,
            q == p + 13 * i,
            q <= bytes@.len(),
            sizes@.len() == i,
            hashes@.len() == i,
            forall|j: int| 0 <= j < i ==> #[trigger] sizes@[j] < 0x1_0000_0000,
            v2_metas(b, fp, i as nat) == Ok::<Seq<(nat, u64)>, Seq<char>>(
                Seq::new(i as nat, |j: int| (sizes@[j] as nat, hashes@[j])),
            ),
            total == metas_total(Seq::new(i as nat, |j: int| (sizes@[j] as nat, hashes@[j])), i as nat),
            total <= i * 0xffff_ffff,
        decreases n - i,
    {
        if bytes.len() - q < 13 {
            proof {
                lemma_metas_err_persists(b, fp, (i + 1) as nat, n as nat);
            }
            return Err(string_of(&chars_of("linear v2: truncated bucket meta")));
        }
        let size = read_be(bytes, q, 4);
        let hash = read_be(bytes, q + 5, 8);
        proof {
            lemma_be_value_bound(b.subrange(q as int, q + 4));
            lemma_pow256_values();
        }
        let ghost before = Seq::new(i as nat, |j: int| (sizes@[j] as nat, hashes@[j]));
        sizes.push(size);
        hashes.push(hash);
        total = total + size;
        q = q + 13;
        i = i + 1;
        proof {
            let now = Seq::new(i as nat, |j: int| (sizes@[j] as nat, hashes@[j]));
            assert(now =~= before.push((size as nat, hash)));
            assert(now.subrange(0, (i - 1) as int) =~= before);
            assert forall|k: nat| k < i implies metas_total(now, k) == metas_total(before, k) by {
                lemma_metas_total_prefix(now, before, k);
            }
        }
    }
    let ghost ms = Seq::new(n as nat, |j: int| (sizes@[j] as nat, hashes@[j]));
    if ((bytes.len() - q) as u64) < total + 8 {
        return Err(string_of(&chars_of("linear v2: truncated buckets/footer")));
    }
    let footer_at: usize = q + total as usize;
    let footer = read_be(bytes, footer_at, 8);
    if footer != LINEAR_SIGNATURE {
        return Err(string_of(&chars_of("linear v2: bad footer signature")));
    }
    let sb = V2Superblock { newest, grid, region_x, region_z, sizes, hashes, data: q };
    assert(superblock_view(sb).metas =~= ms);
    Ok(sb)
}

proof fn lemma_metas_total_prefix(now: Seq<(nat, u64)>, before: Seq<(nat, u64)>, k: nat)
    requires
        k <= before.len(),
        before.len() <= now.len(),
        forall|j: int| 0 <= j < before.len() ==> now[j] == before[j],
    ensures
        metas_total(now, k) == metas_total(before, k),
    decreases k,
{
    if k > 0 {
        lemma_metas_total_prefix(now, before, (k - 1) as nat);
    }
}

/// Applies the chunk records of one decompressed bucket.
#[verifier::loop_isolation(false)]
fn parse_v2_records(
    d: &[u8],
    bucket: usize,
    grid: u8,
    chunks: &mut Vec<Option<Vec<u8>>>,
    timestamps: &mut Vec<u32>,
) -> (r: Result<(), String>)
    requires
        valid_grid(grid),
        bucket < grid * grid,
        old(chunks)@.len() == 1024,
        old(timestamps)@.len() == 1024,
    ensures
        final(chunks)@.len() == 1024,
        final(timestamps)@.len() == 1024,
        match v2_records(d@, bucket as nat, grid, 0, 0, (chunks_view(old(chunks)@), old(timestamps)@)) {
            Ok(t) => r is Ok && chunks_view(final(chunks)@) == t.0 && final(timestamps)@ == t.1,
            Err(m) => r is Err && r->Err_0@ == m,
        },
{
    let ghost start = (chunks_view(chunks@), timestamps@);
    let g = grid as usize;
    assert(g <= 32);
    assert(g * g <= 1024) by (nonlinear_arith)
        requires
            g <= 32,
    ;
    let cpb: usize = 1024 / (g * g);
    assert(cpb == chunks_per_bucket(grid));
    let mut pos: usize = 0;
    let mut local: usize = 0;
    let mut result: Result<(), String> = Ok(());
    let mut failed = false;
    while local < cpb && !failed
        invariant
            local <= cpb,
            pos <= d@.len(),
            chunks@.len() == 1024,
            timestamps@.len() == 1024,
            !failed ==> v2_records(d@, bucket as nat, grid, 0, 0, start) == v2_records(
                d@,
                bucket as nat,
                grid,
                local as nat,
                pos as nat,
                (chunks_view(chunks@), timestamps@),
            ),
            failed ==> (match v2_records(d@, bucket as nat, grid, 0, 0, start) {
                Ok(_) => false,
                Err(m) => result is Err && result->Err_0@ == m,
            }),
            !failed ==> result is Ok,
        decreases cpb - local + (if failed { 0int } else { 1int }),
    {
        if d.len() - pos < 12 {
            result = Err(string_of(&chars_of("linear v2: truncated chunk record")));
            failed = true;
        } else {
            let size = read_be(d, pos, 4);
            let ts = read_be(d, pos + 4, 8);
            proof {
                lemma_global_index_bound(bucket as nat, local as nat, grid);
                lemma_be_value_bound(d@.subrange(pos as int, pos + 4));
                lemma_pow256_values();
            }
            let idx = global_chunk_index(bucket, local, grid);
            let ghost cv = chunks_view(chunks@);
            timestamps.set(idx, (ts % 0x1_0000_0000) as u32);
            if size == 0 {
                pos = pos + 12;
                local = local + 1;
            } else if ((d.len() - (pos + 12)) as u64) < size {
                result = Err(string_of(&chars_of("linear v2: truncated chunk data")));
                failed = true;
            } else {
                let end: usize = pos + 12 + size as usize;
                let piece = copy_range(d, pos + 12, end);
                let ghost pv = piece@;
                chunks.set(idx, Some(piece));
                assert(chunks_view(chunks@) =~= cv.update(idx as int, Some(pv)));
                pos = end;
                local = local + 1;
            }
        }
    }
    result
}

/// Linear v2: grid of independently zstd-compressed buckets.
#[verifier::loop_isolation(false)]
pub fn read_linear_v2(bytes: &[u8]) -> (r: Result<LinearRegion, String>)
    ensures
        match read_v2_spec(bytes@) {
            Ok(v) => r is Ok && r->Ok_0@ == v,
            Err(m) => r is Err && (m.len() > 0 ==> r->Err_0@ == m),
        },
{
    let sb = match parse_v2_superblock(bytes) {
        Ok(sb) => sb,
        Err(e) => return Err(e),
    };
    let ghost h = superblock_view(sb);
    let ghost b = bytes@;
    assert(v2_header(b) is Ok);
    assert(v2_header(b)->Ok_0 == h);
    assert(h.data + metas_total(h.metas, h.metas.len()) + 8 <= b.len());
    let empty = LinearRegion::empty(0, 0);
    assert(empty@.chunks.len() == 1024);
    let mut chunks = empty.chunks;
    let mut timestamps = empty.timestamps;
    assert(chunks@.len() == 1024);
    assert((chunks_view(chunks@), timestamps@) == empty_tables());
    let n = sb.sizes.len();
    let mut pos: usize = sb.data;
    let mut i: usize = 0;
    while i < n
        invariant
            i <= n,
            n == h.metas.len(),
            sb.hashes@.len() == n,
            valid_grid(sb.grid),
            n == sb.grid * sb.grid,
            chunks@.len() == 1024,
            timestamps@.len() == 1024,
            pos == h.data + metas_total(h.metas, i as nat),
            h.data + metas_total(h.metas, n as nat) + 8 <= b.len(),
            forall|j: int| 0 <= j < n ==> #[trigger] sb.sizes@[j] < 0x1_0000_0000,
            v2_buckets(b, h, 0, h.data, empty_tables()) == v2_buckets(
                b,
                h,
                i as nat,
                pos as nat,
                (chunks_view(chunks@), timestamps@),
            ),
        decreases n - i,
    {
        let size = sb.sizes[i] as usize;
        proof {
            lemma_metas_total_step(h.metas, i as nat, n as nat);
            assert(h.metas[i as int].0 == sb.sizes@[i as int]);
            assert(size == sb.sizes@[i as int]);
            assert(pos + size <= h.data + metas_total(h.metas, n as nat));
            assert(pos + size <= b.len());
            assert(bytes@.len() == bytes.len());
        }
        let comp = copy_range(bytes, pos, pos + size);
        let hash = xxh64_of(comp.as_slice(), 0);
        if hash != sb.hashes[i] {
            let mut m = chars_of("linear v2: xxhash mismatch bucket ");
            push_nat(&mut m, i as u64);
            return Err(string_of(&m));
        }
        let d = match decompress_zstd_ruzstd_or_zstd(comp.as_slice()) {
            Ok(d) => d,
            Err(e) => return Err(e),
        };
        match parse_v2_records(d.as_slice(), i, sb.grid, &mut chunks, &mut timestamps) {
            Ok(()) => {},
            Err(e) => return Err(e),
        }
        pos = pos + size;
        i = i + 1;
    }
    Ok(
        LinearRegion {
            version: LinearVersion::V2,
            region_x: sb.region_x,
            region_z: sb.region_z,
            newest_timestamp: sb.newest,
            chunks,
            timestamps,
            grid_size: sb.grid,
        },
    )
}

/// `2^k`.
pub open spec fn bit_value(k: nat) -> nat
    decreases k,
{
    if k == 0 {
        1
    } else {
        2 * bit_value((k - 1) as nat)
    }
}

/// Presence bits of chunks `8 * byte .. 8 * byte + k`.
pub open spec fn bitmap_bits(c: Seq<Option<Seq<u8>>>, byte: nat, k: nat) -> nat
    decreases k,
{
    if k == 0 {
        0
    } else {
        bitmap_bits(c, byte, (k - 1) as nat) + if c[8 * byte + k - 1] is Some {
            bit_value((k - 1) as nat)
        } else {
            0
        }
    }
}

/// The 128-byte existence bitmap: bit `i % 8` of byte `i / 8` marks chunk `i`.
pub open spec fn v2_bitmap(c: Seq<Option<Seq<u8>>>) -> Seq<u8> {
    Seq::new(128, |j: int| bitmap_bits(c, j as nat, 8) as u8)
}

/// The grid a region is written with: its own if valid, else the default.
pub open spec fn v2_grid(g: u8) -> u8 {
    if valid_grid(g) {
        g
    } else {
        2
    }
}

/// One chunk record inside a v2 bucket.
pub open spec fn v2_record(c: Option<Seq<u8>>, t: u32) -> Seq<u8> {
    match c {
        None => be_bytes(0, 4) + be_bytes(t as nat, 8),
        Some(d) => be_bytes(d.len(), 4) + be_bytes(t as nat, 8) + d,
    }
}

/// The uncompressed records of the first `n` chunks of a bucket.
pub open spec fn v2_bucket_raw(c: Seq<Option<Seq<u8>>>, ts: Seq<u32>, bucket: nat, g: u8, n: nat) -> Seq<
    u8,
>
    decreases n,
{
    if n == 0 {
        seq![]
    } else {
        let idx = global_index(bucket, (n - 1) as nat, g as nat);
        v2_bucket_raw(c, ts, bucket, g, (n - 1) as nat) + v2_record(c[idx], ts[idx])
    }
}

/// The compressed frame of a bucket.
pub open spec fn v2_frame(c: Seq<Option<Seq<u8>>>, ts: Seq<u32>, bucket: nat, g: u8) -> Seq<u8> {
    zstd_encoded(v2_bucket_raw(c, ts, bucket, g, chunks_per_bucket(g)), 1)
}

/// Size, compression level and hash of a bucket's frame.
pub open spec fn v2_meta_entry(frame: Seq<u8>) -> Seq<u8> {
    be_bytes(frame.len(), 4) + seq![1u8] + be_bytes(xxh64_digest(frame, 0) as nat, 8)
}

pub open spec fn v2_meta_bytes(c: Seq<Option<Seq<u8>>>, ts: Seq<u32>, g: u8, n: nat) -> Seq<u8>
    decreases n,
{
    if n == 0 {
        seq![]
    } else {
        v2_meta_bytes(c, ts, g, (n - 1) as nat) + v2_meta_entry(v2_frame(c, ts, (n - 1) as nat, g))
    }
}

pub open spec fn v2_blobs(c: Seq<Option<Seq<u8>>>, ts: Seq<u32>, g: u8, n: nat) -> Seq<u8>
    decreases n,
{
    if n == 0 {
        seq![]
    } else {
        v2_blobs(c, ts, g, (n - 1) as nat) + v2_frame(c, ts, (n - 1) as nat, g)
    }
}

/// A v2 file for a region.
pub open spec fn v2_file(r: LinearView) -> Seq<u8> {
    let g = v2_grid(r.grid_size);
    let n = (g * g) as nat;
    signature_bytes() + seq![2u8] + be_bytes(r.newest_timestamp as nat, 8) + seq![g] + be_bytes(
        twos(r.region_x as int, 4),
        4,
    ) + be_bytes(twos(r.region_z as int, 4), 4) + v2_bitmap(r.chunks) + seq![0u8] + v2_meta_bytes(
        r.chunks,
        r.timestamps,
        g,
        n,
    ) + v2_blobs(r.chunks, r.timestamps, g, n) + signature_bytes()
}

fn twos32(v: i32) -> (r: u64)
    ensures
        r == twos(v as int, 4),
        r < 0x1_0000_0000,
{
    proof {
        lemma_pow256_values();
    }
    if v < 0 {
        (v as i64 + 0x1_0000_0000) as u64
    } else {
        v as u64
    }
}

/// The existence bitmap of a region's chunks.
fn bitmap_of(chunks: &Vec<Option<Vec<u8>>>) -> (r: Vec<u8>)
    requires
        chunks@.len() == 1024,
    ensures
        r@ == v2_bitmap(chunks_view(chunks@)),
{
    let ghost c = chunks_view(chunks@);
    let mut out: Vec<u8> = Vec::new();
    let mut j: usize = 0;
    while j < 128
        invariant
            j <= 128,
            chunks@.len() == 1024,
            c == chunks_view(chunks@),
            out@.len() == j,
            forall|i: int| 0 <= i < j ==> #[trigger] out@[i] == bitmap_bits(c, i as nat, 8) as u8,
        decreases 128 - j,
    {
        let mut byte: u32 = 0;
        let mut bit: u32 = 1;
        let mut k: usize = 0;
        while k < 8
            invariant
                j < 128,
                k <= 8,
                chunks@.len() == 1024,
                c == chunks_view(chunks@),
                byte == bitmap_bits(c, j as nat, k as nat),
                bit == bit_value(k as nat),
                byte < bit,
                bit <= 256,
            decreases 8 - k,
        {
            proof {
                reveal_with_fuel(bit_value, 9);
            }
            assert(chunk_view(chunks@[8 * j + k]) == c[8 * j + k]);
            if chunks[8 * j + k].is_some() {
                byte = byte + bit;
            }
            bit = bit * 2;
            k += 1;
        }
        assert(byte < 256) by {
            reveal_with_fuel(bit_value, 9);
        }
        out.push(byte as u8);
        j += 1;
    }
    assert(out@ =~= v2_bitmap(c));
    out
}

/// The uncompressed records of one bucket.
fn v2_bucket_records(region: &LinearRegion, bucket: usize, grid: u8) -> (r: Vec<u8>)
    requires
        valid_grid(grid),
        bucket < grid * grid,
        region.chunks@.len() == 1024,
        region.timestamps@.len() == 1024,
    ensures
        r@ == v2_bucket_raw(region@.chunks, region@.timestamps, bucket as nat, grid, chunks_per_bucket(grid)),
{
    let ghost c = region@.chunks;
    let ghost ts = region@.timestamps;
    let g = grid as usize;
    assert(g * g <= 1024) by (nonlinear_arith)
        requires
            g <= 32,
    ;
    let cpb: usize = 1024 / (g * g);
    let mut raw: Vec<u8> = Vec::new();
    let mut local: usize = 0;
    while local < cpb
        invariant
            valid_grid(grid),
            bucket < grid * grid,
            g == grid,
            cpb == chunks_per_bucket(grid),
            local <= cpb,
            region.chunks@.len() == 1024,
            region.timestamps@.len() == 1024,
            c == region@.chunks,
            ts == region@.timestamps,
            raw@ == v2_bucket_raw(c, ts, bucket as nat, grid, local as nat),
        decreases cpb - local,
    {
        proof {
            lemma_global_index_bound(bucket as nat, local as nat, grid);
        }
        let idx = global_chunk_index(bucket, local, grid);
        assert(chunk_view(region.chunks@[idx as int]) == c[idx as int]);
        let t = region.timestamps[idx];
        match &region.chunks[idx] {
            None => {
                push_be(&mut raw, 0, 4);
                push_be(&mut raw, t as u64, 8);
            },
            Some(data) => {
                push_be(&mut raw, data.len() as u64, 4);
                push_be(&mut raw, t as u64, 8);
                append_bytes(&mut raw, data.as_slice());
            },
        }
        assert(raw@ =~= v2_bucket_raw(c, ts, bucket as nat, grid, (local + 1) as nat));
        local += 1;
    }
    raw
}

/// Writes a region as Linear v2 (its grid size if valid, else the default),
/// each bucket compressed with zstd at level 1.
pub fn write_linear_v2(region: &LinearRegion) -> (r: Result<Vec<u8>, String>)
    requires
        region.chunks@.len() == 1024,
        region.timestamps@.len() == 1024,
    ensures
        r is Ok ==> r->Ok_0@ == v2_file(region@),
        r is Ok ==> forall|i: nat|
            i < v2_grid(region.grid_size) * v2_grid(region.grid_size) ==> zstd_decode_result(
                #[trigger] v2_frame(region@.chunks, region@.timestamps, i, v2_grid(region.grid_size)),
            ) == Some(
                v2_bucket_raw(
                    region@.chunks,
                    region@.timestamps,
                    i,
                    v2_grid(region.grid_size),
                    chunks_per_bucket(v2_grid(region.grid_size)),
                ),
            ),
        r is Ok,
{
    let ghost c = region@.chunks;
    let ghost ts = region@.timestamps;
    let grid: u8 = if region.grid_size == 1 || region.grid_size == 2 || region.grid_size == 4
        || region.grid_size == 8 || region.grid_size == 16 || region.grid_size == 32 {
        region.grid_size
    } else {
        DEFAULT_V2_GRID
    };
    assert((grid as usize) * (grid as usize) <= 1024) by (nonlinear_arith)
        requires
            grid <= 32,
    ;
    let bucket_count: usize = (grid as usize) * (grid as usize);
    let mut metas: Vec<u8> = Vec::new();
    let mut blobs: Vec<u8> = Vec::new();
    let mut bucket: usize = 0;
    while bucket < bucket_count
        invariant
            valid_grid(grid),
            grid == v2_grid(region.grid_size),
            bucket_count == grid * grid,
            bucket <= bucket_count,
            region.chunks@.len() == 1024,
            region.timestamps@.len() == 1024,
            c == region@.chunks,
            ts == region@.timestamps,
            metas@ == v2_meta_bytes(c, ts, grid, bucket as nat),
            blobs@ == v2_blobs(c, ts, grid, bucket as nat),
            forall|i: nat|
                i < bucket ==> zstd_decode_result(#[trigger] v2_frame(c, ts, i, grid)) == Some(
                    v2_bucket_raw(c, ts, i, grid, chunks_per_bucket(grid)),
                ),
        decreases bucket_count - bucket,
    {
        let raw = v2_bucket_records(region, bucket, grid);
        let compressed = match zstd_encode(raw.as_slice(), 1) {
            Ok(v) => v,
            Err(e) => {
                let mut m = chars_of("linear v2: zstd: ");
                append_str(&mut m, e.as_str());
                return Err(string_of(&m));
            },
        };
        let hash = xxh64_of(compressed.as_slice(), 0);
        push_be(&mut metas, compressed.len() as u64, 4);
        metas.push(1);
        push_be(&mut metas, hash, 8);
        append_bytes(&mut blobs, compressed.as_slice());
        proof {
            assert(metas@ =~= v2_meta_bytes(c, ts, grid, (bucket + 1) as nat));
            assert(blobs@ =~= v2_blobs(c, ts, grid, (bucket + 1) as nat));
        }
        bucket += 1;
    }
    let bitmap = bitmap_of(&region.chunks);
    let mut out: Vec<u8> = Vec::new();
    push_be(&mut out, LINEAR_SIGNATURE, 8);
    out.push(2);
    push_be(&mut out, region.newest_timestamp, 8);
    out.push(grid);
    let rx = twos32(region.region_x);
    let rz = twos32(region.region_z);
    push_be(&mut out, rx, 4);
    push_be(&mut out, rz, 4);
    append_bytes(&mut out, bitmap.as_slice());
    out.push(0);
    append_bytes(&mut out, metas.as_slice());
    append_bytes(&mut out, blobs.as_slice());
    push_be(&mut out, LINEAR_SIGNATURE, 8);
    assert(out@ =~= v2_file(region@));
    Ok(out)
}

/// What `read_linear_v1` gives for a file (an empty error message stands
/// for a message of the zstd decoder).
pub open spec fn read_v1_spec(b: Seq<u8>) -> Result<LinearView, Seq<char>> {
    match v1_header(b) {
        Err(m) => Err(m),
        Ok((newest, count, blob)) => match zstd_decode_result(blob) {
            None => Err(seq![]),
            Some(d) => v1_body(newest, count, d),
        },
    }
}

/// What `read_linear` gives for a file.
pub open spec fn read_linear_spec(b: Seq<u8>) -> Result<LinearView, Seq<char>> {
    match detect_spec(b) {
        Err(m) => Err(m),
        Ok(LinearVersion::V1) => read_v1_spec(b),
        Ok(LinearVersion::V2) => read_v2_spec(b),
    }
}

/// Reads a Linear file of either version.
pub fn read_linear(bytes: &[u8]) -> (r: Result<LinearRegion, String>)
    ensures
        match read_linear_spec(bytes@) {
            Ok(v) => r is Ok && r->Ok_0@ == v,
            Err(m) => r is Err && (m.len() > 0 ==> r->Err_0@ == m),
        },
{
    match detect_linear_version(bytes) {
        Err(e) => Err(e),
        Ok(LinearVersion::V1) => read_linear_v1(bytes),
        Ok(LinearVersion::V2) => read_linear_v2(bytes),
    }
}

/// What `write_linear` writes for a region when compression succeeds.
pub open spec fn write_linear_spec(r: LinearView) -> Seq<u8> {
    match r.version {
        LinearVersion::V1 => v1_file(
            newest_present(r.chunks, r.timestamps, 1024),
            DEFAULT_V1_COMPRESSION,
            count_present(r.chunks, 1024),
            zstd_encoded(v1_payload(r.chunks, r.timestamps), clamp_level(DEFAULT_V1_COMPRESSION)),
        ),
        LinearVersion::V2 => v2_file(r),
    }
}

/// Writes a region in its own Linear version (v1 at the default level).
pub fn write_linear(region: &LinearRegion) -> (r: Result<Vec<u8>, String>)
    requires
        region.chunks@.len() == 1024,
        region.timestamps@.len() == 1024,
    ensures
        r is Ok ==> r->Ok_0@ == write_linear_spec(region@),
        r is Ok,
{
    match region.version {
        LinearVersion::V1 => write_linear_v1(region, DEFAULT_V1_COMPRESSION),
        LinearVersion::V2 => write_linear_v2(region),
    }
}

// ---------------------------------------------------------------------------
// Reading back a written v2 file

/// Applying one chunk record: the chunk (if present) and its timestamp.
pub open spec fn v2_step(acc: Tables, c: Seq<Option<Seq<u8>>>, ts: Seq<u32>, idx: int) -> Tables {
    (if c[idx] is Some {
        acc.0.update(idx, c[idx])
    } else {
        acc.0
    }, acc.1.update(idx, ts[idx]))
}

/// Table index of the `t`-th record in file order (bucket by bucket).
pub open spec fn write_index(t: nat, g: u8) -> int {
    global_index(t / chunks_per_bucket(g), t % chunks_per_bucket(g), g as nat)
}

/// Tables after the first `t` records in file order.
pub open spec fn tables_at(c: Seq<Option<Seq<u8>>>, ts: Seq<u32>, g: u8, t: nat) -> Tables
    decreases t,
{
    if t == 0 {
        empty_tables()
    } else {
        v2_step(tables_at(c, ts, g, (t - 1) as nat), c, ts, write_index((t - 1) as nat, g))
    }
}

/// Whether one of the first `t` records goes to index `k`.
pub open spec fn written_before(k: int, t: nat, g: u8) -> bool
    decreases t,
{
    if t == 0 {
        false
    } else {
        written_before(k, (t - 1) as nat, g) || write_index((t - 1) as nat, g) == k
    }
}

proof fn lemma_grid_facts(g: u8)
    requires
        valid_grid(g),
    ensures
        (32nat / (g as nat)) * (g as nat) == 32,
        chunks_per_bucket(g) == (32nat / (g as nat)) * (32nat / (g as nat)),
        chunks_per_bucket(g) * ((g * g) as nat) == 1024,
        chunks_per_bucket(g) > 0,
{
    let gn = g as nat;
    let stride = 32nat / gn;
    let cpb = chunks_per_bucket(g);
    assert(cpb == 1024nat / (gn * gn));
    assert(stride * gn == 32 && cpb == stride * stride && cpb * (gn * gn) == 1024 && cpb > 0)
        by (nonlinear_arith)
        requires
            gn == 1 || gn == 2 || gn == 4 || gn == 8 || gn == 16 || gn == 32,
            stride == 32nat / gn,
            cpb == 1024nat / (gn * gn),
    ;
}

proof fn lemma_write_index_bound(t: nat, g: u8)
    requires
        valid_grid(g),
        t < 1024,
    ensures
        0 <= write_index(t, g) < 1024,
{
    lemma_grid_facts(g);
    let cpb = chunks_per_bucket(g);
    let n = (g * g) as nat;
    vstd::arithmetic::div_mod::lemma_fundamental_div_mod(t as int, cpb as int);
    assert(t / cpb < n) by (nonlinear_arith)
        requires
            t < 1024,
            cpb * n == 1024,
            cpb > 0,
            t == cpb * (t / cpb) + t % cpb,
            t % cpb >= 0,
    ;
    lemma_global_index_bound(t / cpb, t % cpb, g);
}

proof fn lemma_tables_at(c: Seq<Option<Seq<u8>>>, ts: Seq<u32>, g: u8, t: nat)
    requires
        valid_grid(g),
        t <= 1024,
        c.len() == 1024,
        ts.len() == 1024,
    ensures
        tables_at(c, ts, g, t).0.len() == 1024,
        tables_at(c, ts, g, t).1.len() == 1024,
        forall|k: int|
            0 <= k < 1024 ==> #[trigger] tables_at(c, ts, g, t).0[k] == (if written_before(k, t, g) {
                c[k]
            } else {
                None
            }),
        forall|k: int|
            0 <= k < 1024 ==> #[trigger] tables_at(c, ts, g, t).1[k] == (if written_before(k, t, g) {
                ts[k]
            } else {
                0u32
            }),
    decreases t,
{
    if t > 0 {
        let t1 = (t - 1) as nat;
        lemma_tables_at(c, ts, g, t1);
        lemma_write_index_bound(t1, g);
    }
}

proof fn lemma_written_monotone(k: int, t: nat, u: nat, g: u8)
    requires
        t <= u,
        written_before(k, t, g),
    ensures
        written_before(k, u, g),
    decreases u,
{
    if u > t {
        lemma_written_monotone(k, t, (u - 1) as nat, g);
    }
}

/// Every table index receives a record: the bucket grid covers the region.
proof fn lemma_all_written(k: int, g: u8)
    requires
        valid_grid(g),
        0 <= k < 1024,
    ensures
        written_before(k, 1024, g),
{
    lemma_grid_facts(g);
    let gn: int = g as int;
    let stride: int = (32nat / (g as nat)) as int;
    let cpb: int = chunks_per_bucket(g) as int;
    let cz = k / 32;
    let cx = k % 32;
    vstd::arithmetic::div_mod::lemma_fundamental_div_mod(k, 32);
    vstd::arithmetic::div_mod::lemma_fundamental_div_mod(cz, stride);
    vstd::arithmetic::div_mod::lemma_fundamental_div_mod(cx, stride);
    let a1 = cz / stride;
    let a2 = cz % stride;
    let a3 = cx / stride;
    let a4 = cx % stride;
    assert(0 <= a2 < stride && 0 <= a4 < stride);
    assert(0 <= a1 < gn && 0 <= a3 < gn) by (nonlinear_arith)
        requires
            cz == stride * a1 + a2,
            cx == stride * a3 + a4,
            0 <= cz < 32,
            0 <= cx < 32,
            0 <= a2 < stride,
            0 <= a4 < stride,
            stride * gn == 32,
            stride > 0,
    ;
    let b = a1 * gn + a3;
    let l = a2 * stride + a4;
    assert(0 <= b < gn * gn && 0 <= l < cpb) by (nonlinear_arith)
        requires
            b == a1 * gn + a3,
            l == a2 * stride + a4,
            0 <= a1 < gn,
            0 <= a3 < gn,
            0 <= a2 < stride,
            0 <= a4 < stride,
            cpb == stride * stride,
    ;
    // b / g and b % g recover the bucket row and column, l / stride and
    // l % stride the row and column inside the bucket.
    vstd::arithmetic::div_mod::lemma_fundamental_div_mod_converse(b, gn, a1, a3);
    vstd::arithmetic::div_mod::lemma_fundamental_div_mod_converse(l, stride, a2, a4);
    assert(global_index(b as nat, l as nat, g as nat) == (a1 * stride + a2) * 32 + a3 * stride + a4);
    assert((a1 * stride + a2) * 32 + a3 * stride + a4 == k) by (nonlinear_arith)
        requires
            cz == stride * a1 + a2,
            cx == stride * a3 + a4,
            k == 32 * cz + cx,
    ;
    let t = b * cpb + l;
    assert(0 <= t < 1024) by (nonlinear_arith)
        requires
            t == b * cpb + l,
            0 <= b < gn * gn,
            0 <= l < cpb,
            cpb * (gn * gn) == 1024,
    ;
    vstd::arithmetic::div_mod::lemma_fundamental_div_mod_converse(t, cpb, b, l);
    assert(write_index(t as nat, g) == k);
    assert(written_before(k, (t + 1) as nat, g));
    lemma_written_monotone(k, (t + 1) as nat, 1024, g);
}

/// After all 1024 records the tables are the region's own.
proof fn lemma_tables_complete(c: Seq<Option<Seq<u8>>>, ts: Seq<u32>, g: u8)
    requires
        valid_grid(g),
        c.len() == 1024,
        ts.len() == 1024,
    ensures
        tables_at(c, ts, g, 1024) == (c, ts),
{
    lemma_tables_at(c, ts, g, 1024);
    assert forall|k: int| 0 <= k < 1024 implies written_before(k, 1024, g) by {
        lemma_all_written(k, g);
    }
    assert(tables_at(c, ts, g, 1024).0 =~= c);
    assert(tables_at(c, ts, g, 1024).1 =~= ts);
}

proof fn lemma_bucket_raw(c: Seq<Option<Seq<u8>>>, ts: Seq<u32>, b: nat, g: u8, n: nat)
    ensures
        forall|l: nat|
            l < n ==> #[trigger] v2_bucket_raw(c, ts, b, g, n).subrange(
                v2_bucket_raw(c, ts, b, g, l).len() as int,
                v2_bucket_raw(c, ts, b, g, (l + 1) as nat).len() as int,
            ) == v2_record(c[global_index(b, l, g as nat)], ts[global_index(b, l, g as nat)]),
        forall|l: nat| l <= n ==> #[trigger] v2_bucket_raw(c, ts, b, g, l).len() <= v2_bucket_raw(c, ts, b, g, n).len(),
    decreases n,
{
    if n > 0 {
        let m = (n - 1) as nat;
        lemma_bucket_raw(c, ts, b, g, m);
        let t = v2_bucket_raw(c, ts, b, g, n);
        assert forall|l: nat| l < n implies #[trigger] t.subrange(
            v2_bucket_raw(c, ts, b, g, l).len() as int,
            v2_bucket_raw(c, ts, b, g, (l + 1) as nat).len() as int,
        ) == v2_record(c[global_index(b, l, g as nat)], ts[global_index(b, l, g as nat)]) by {
            let lo = v2_bucket_raw(c, ts, b, g, l).len() as int;
            let hi = v2_bucket_raw(c, ts, b, g, (l + 1) as nat).len() as int;
            if l < m {
                assert(t.subrange(lo, hi) =~= v2_bucket_raw(c, ts, b, g, m).subrange(lo, hi));
            } else {
                assert(t.subrange(lo, hi) =~= v2_record(
                    c[global_index(b, l, g as nat)],
                    ts[global_index(b, l, g as nat)],
                ));
            }
        }
    }
}

proof fn lemma_record_fields(d: Seq<u8>, pos: int, cv: Option<Seq<u8>>, t: u32)
    requires
        0 <= pos,
        pos + v2_record(cv, t).len() <= d.len(),
        d.subrange(pos, pos + v2_record(cv, t).len()) == v2_record(cv, t),
        cv is Some ==> cv->0.len() < 0x1_0000_0000,
    ensures
        v2_record(cv, t).len() == 12 + chunk_bytes(cv).len(),
        d.len() - pos >= 12,
        be_value(d.subrange(pos, pos + 4)) == chunk_bytes(cv).len(),
        (be_value(d.subrange(pos + 4, pos + 12)) % 0x1_0000_0000) as u32 == t,
        d.subrange(pos + 12, pos + 12 + chunk_bytes(cv).len()) == chunk_bytes(cv),
{
    lemma_pow256_values();
    let rec = v2_record(cv, t);
    let len = chunk_bytes(cv).len();
    lemma_be_bytes_len(len, 4);
    lemma_be_bytes_len(t as nat, 8);
    lemma_be_bytes_len(0, 4);
    assert(rec =~= be_bytes(len, 4) + be_bytes(t as nat, 8) + chunk_bytes(cv));
    assert(d.subrange(pos, pos + 4) =~= rec.subrange(0, 4));
    assert(rec.subrange(0, 4) =~= be_bytes(len, 4));
    assert(d.subrange(pos + 4, pos + 12) =~= rec.subrange(4, 12));
    assert(rec.subrange(4, 12) =~= be_bytes(t as nat, 8));
    assert(d.subrange(pos + 12, pos + 12 + len) =~= rec.subrange(12, 12 + len as int));
    assert(rec.subrange(12, 12 + len as int) =~= chunk_bytes(cv));
    lemma_be_roundtrip_small(len, 4);
    lemma_be_roundtrip_small(t as nat, 8);
}

proof fn lemma_step_index(b: nat, l: nat, g: u8)
    requires
        valid_grid(g),
        l < chunks_per_bucket(g),
    ensures
        write_index(b * chunks_per_bucket(g) + l, g) == global_index(b, l, g as nat),
{
    lemma_grid_facts(g);
    let cpb = chunks_per_bucket(g);
    vstd::arithmetic::div_mod::lemma_fundamental_div_mod_converse(
        (b * cpb + l) as int,
        cpb as int,
        b as int,
        l as int,
    );
}

/// The records of bucket `b` from record `l` on, applied to the tables of
/// the records before them, give the tables after the bucket.
proof fn lemma_v2_records(c: Seq<Option<Seq<u8>>>, ts: Seq<u32>, b: nat, g: u8, l: nat)
    requires
        valid_grid(g),
        b < g * g,
        c.len() == 1024,
        ts.len() == 1024,
        storable(c),
        l <= chunks_per_bucket(g),
    ensures
        v2_records(
            v2_bucket_raw(c, ts, b, g, chunks_per_bucket(g)),
            b,
            g,
            l,
            v2_bucket_raw(c, ts, b, g, l).len(),
            tables_at(c, ts, g, b * chunks_per_bucket(g) + l),
        ) == Ok::<Tables, Seq<char>>(tables_at(c, ts, g, (b + 1) * chunks_per_bucket(g))),
    decreases chunks_per_bucket(g) - l,
{
    let cpb = chunks_per_bucket(g);
    let d = v2_bucket_raw(c, ts, b, g, cpb);
    let pos = v2_bucket_raw(c, ts, b, g, l).len();
    let acc = tables_at(c, ts, g, b * cpb + l);
    lemma_grid_facts(g);
    if l >= cpb {
        assert(b * cpb + l == (b + 1) * cpb) by (nonlinear_arith)
            requires
                l == cpb,
        ;
    } else {
        lemma_bucket_raw(c, ts, b, g, cpb);
        lemma_global_index_bound(b, l, g);
        let idx = global_index(b, l, g as nat);
        let cv = c[idx];
        let t = ts[idx];
        if cv is Some {
            assert(0 < cv->0.len() < 0x1_0000_0000);
        }
        let next = v2_bucket_raw(c, ts, b, g, (l + 1) as nat).len();
        assert(v2_bucket_raw(c, ts, b, g, (l + 1) as nat) == v2_bucket_raw(c, ts, b, g, l) + v2_record(cv, t));
        assert(d.subrange(pos as int, next as int) == v2_record(cv, t));
        assert(next <= d.len());
        lemma_record_fields(d, pos as int, cv, t);
        lemma_step_index(b, l, g);
        assert(b * cpb + l + 1 == b * cpb + (l + 1));
        assert(tables_at(c, ts, g, b * cpb + (l + 1)) == v2_step(acc, c, ts, idx));
        let acc1 = (acc.0, acc.1.update(idx, t));
        if cv is Some {
            assert((acc1.0.update(idx, Some(d.subrange((pos + 12) as int, (pos + 12 + cv->0.len()) as int))), acc1.1)
                == v2_step(acc, c, ts, idx));
        } else {
            assert(acc1 == v2_step(acc, c, ts, idx));
        }
        lemma_v2_records(c, ts, b, g, (l + 1) as nat);
    }
}

proof fn lemma_v2_meta_bytes(c: Seq<Option<Seq<u8>>>, ts: Seq<u32>, g: u8, n: nat)
    ensures
        v2_meta_bytes(c, ts, g, n).len() == 13 * n,
        forall|i: int|
            0 <= i < n ==> #[trigger] v2_meta_bytes(c, ts, g, n).subrange(13 * i, 13 * i + 13)
                == v2_meta_entry(v2_frame(c, ts, i as nat, g)),
    decreases n,
{
    if n > 0 {
        let m = (n - 1) as nat;
        lemma_v2_meta_bytes(c, ts, g, m);
        let fr = v2_frame(c, ts, m, g);
        lemma_be_bytes_len(fr.len(), 4);
        lemma_be_bytes_len(xxh64_digest(fr, 0) as nat, 8);
        let t = v2_meta_bytes(c, ts, g, n);
        let prev = v2_meta_bytes(c, ts, g, m);
        assert forall|i: int| 0 <= i < n implies #[trigger] t.subrange(13 * i, 13 * i + 13)
            == v2_meta_entry(v2_frame(c, ts, i as nat, g)) by {
            if i < m {
                assert(t.subrange(13 * i, 13 * i + 13) =~= prev.subrange(13 * i, 13 * i + 13));
            } else {
                assert(t.subrange(13 * i, 13 * i + 13) =~= v2_meta_entry(fr));
            }
        }
    }
}

proof fn lemma_v2_blobs(c: Seq<Option<Seq<u8>>>, ts: Seq<u32>, g: u8, n: nat)
    ensures
        forall|i: nat|
            i < n ==> #[trigger] v2_blobs(c, ts, g, n).subrange(
                v2_blobs(c, ts, g, i).len() as int,
                v2_blobs(c, ts, g, (i + 1) as nat).len() as int,
            ) == v2_frame(c, ts, i, g),
        forall|i: nat| i <= n ==> #[trigger] v2_blobs(c, ts, g, i).len() <= v2_blobs(c, ts, g, n).len(),
    decreases n,
{
    if n > 0 {
        let m = (n - 1) as nat;
        lemma_v2_blobs(c, ts, g, m);
        let t = v2_blobs(c, ts, g, n);
        assert forall|i: nat| i < n implies #[trigger] t.subrange(
            v2_blobs(c, ts, g, i).len() as int,
            v2_blobs(c, ts, g, (i + 1) as nat).len() as int,
        ) == v2_frame(c, ts, i, g) by {
            let lo = v2_blobs(c, ts, g, i).len() as int;
            let hi = v2_blobs(c, ts, g, (i + 1) as nat).len() as int;
            if i < m {
                assert(t.subrange(lo, hi) =~= v2_blobs(c, ts, g, m).subrange(lo, hi));
            } else {
                assert(t.subrange(lo, hi) =~= v2_frame(c, ts, i, g));
            }
        }
    }
}

/// Bucket table entries as the reader sees them.
pub open spec fn v2_meta_view(c: Seq<Option<Seq<u8>>>, ts: Seq<u32>, g: u8, k: nat) -> Seq<(nat, u64)> {
    Seq::new(k, |i: int| (v2_frame(c, ts, i as nat, g).len(), xxh64_digest(v2_frame(c, ts, i as nat, g), 0)))
}

/// Every bucket frame's length fits the 32-bit size field.
pub open spec fn frames_fit(c: Seq<Option<Seq<u8>>>, ts: Seq<u32>, g: u8) -> bool {
    forall|i: nat| i < g * g ==> (#[trigger] v2_frame(c, ts, i, g)).len() < 0x1_0000_0000
}

/// Every bucket frame decompresses to its records.
pub open spec fn frames_decode(c: Seq<Option<Seq<u8>>>, ts: Seq<u32>, g: u8) -> bool {
    forall|i: nat|
        i < g * g ==> zstd_decode_result(#[trigger] v2_frame(c, ts, i, g)) == Some(
            v2_bucket_raw(c, ts, i, g, chunks_per_bucket(g)),
        )
}

proof fn lemma_v2_meta_at(f: Seq<u8>, p: nat, c: Seq<Option<Seq<u8>>>, ts: Seq<u32>, g: u8, n: nat, j: nat)
    requires
        j < n,
        p + 13 * n <= f.len(),
        f.subrange(p as int, (p + 13 * n) as int) == v2_meta_bytes(c, ts, g, n),
    ensures
        f.subrange((p + 13 * j) as int, (p + 13 * j + 4) as int) == be_bytes(
            v2_frame(c, ts, j, g).len(),
            4,
        ),
        f.subrange((p + 13 * j + 5) as int, (p + 13 * j + 13) as int) == be_bytes(
            xxh64_digest(v2_frame(c, ts, j, g), 0) as nat,
            8,
        ),
{
    let fr = v2_frame(c, ts, j, g);
    let q: int = (p + 13 * j) as int;
    let ji: int = j as int;
    lemma_v2_meta_bytes(c, ts, g, n);
    let e = v2_meta_entry(fr);
    assert(v2_meta_bytes(c, ts, g, n).subrange(13 * ji, 13 * ji + 13) == e);
    assert(f.subrange(q, q + 13) =~= f.subrange(p as int, (p + 13 * n) as int).subrange(
        13 * ji,
        13 * ji + 13,
    ));
    lemma_be_bytes_len(fr.len(), 4);
    lemma_be_bytes_len(xxh64_digest(fr, 0) as nat, 8);
    assert(e.subrange(0, 4) =~= be_bytes(fr.len(), 4));
    assert(e.subrange(5, 13) =~= be_bytes(xxh64_digest(fr, 0) as nat, 8));
    assert(f.subrange(q, q + 4) =~= e.subrange(0, 4));
    assert(f.subrange(q + 5, q + 13) =~= e.subrange(5, 13));
}

proof fn lemma_v2_metas_parse(f: Seq<u8>, p: nat, c: Seq<Option<Seq<u8>>>, ts: Seq<u32>, g: u8, n: nat, k: nat)
    requires
        k <= n,
        p + 13 * n <= f.len(),
        f.subrange(p as int, (p + 13 * n) as int) == v2_meta_bytes(c, ts, g, n),
        forall|i: nat| i < n ==> (#[trigger] v2_frame(c, ts, i, g)).len() < 0x1_0000_0000,
    ensures
        v2_metas(f, p, k) == Ok::<Seq<(nat, u64)>, Seq<char>>(v2_meta_view(c, ts, g, k)),
    decreases k,
{
    if k == 0 {
        assert(v2_meta_view(c, ts, g, 0) =~= Seq::<(nat, u64)>::empty());
    } else {
        let j = (k - 1) as nat;
        lemma_v2_metas_parse(f, p, c, ts, g, n, j);
        let fr = v2_frame(c, ts, j, g);
        lemma_v2_meta_at(f, p, c, ts, g, n, j);
        assert(fr.len() < 0x1_0000_0000);
        lemma_pow256_values();
        lemma_be_roundtrip_small(fr.len(), 4);
        lemma_be_roundtrip_small(xxh64_digest(fr, 0) as nat, 8);
        assert(v2_meta_view(c, ts, g, k) =~= v2_meta_view(c, ts, g, j).push(
            (fr.len(), xxh64_digest(fr, 0)),
        ));
    }
}

proof fn lemma_metas_total_blobs(c: Seq<Option<Seq<u8>>>, ts: Seq<u32>, g: u8, n: nat, k: nat)
    requires
        k <= n,
    ensures
        metas_total(v2_meta_view(c, ts, g, n), k) == v2_blobs(c, ts, g, k).len(),
    decreases k,
{
    if k > 0 {
        lemma_metas_total_blobs(c, ts, g, n, (k - 1) as nat);
    }
}

/// From bucket `i` on, a written file's buckets rebuild the tables.
proof fn lemma_v2_buckets(f: Seq<u8>, h: V2Header, c: Seq<Option<Seq<u8>>>, ts: Seq<u32>, g: u8, i: nat)
    requires
        valid_grid(g),
        h.grid == g,
        h.metas == v2_meta_view(c, ts, g, (g * g) as nat),
        i <= g * g,
        c.len() == 1024,
        ts.len() == 1024,
        storable(c),
        frames_decode(c, ts, g),
        h.data + v2_blobs(c, ts, g, (g * g) as nat).len() <= f.len(),
        f.subrange(h.data as int, (h.data + v2_blobs(c, ts, g, (g * g) as nat).len()) as int) == v2_blobs(
            c,
            ts,
            g,
            (g * g) as nat,
        ),
    ensures
        v2_buckets(
            f,
            h,
            i,
            h.data + v2_blobs(c, ts, g, i).len(),
            tables_at(c, ts, g, i * chunks_per_bucket(g)),
        ) == Ok::<Tables, Seq<char>>(tables_at(c, ts, g, 1024)),
    decreases g * g - i,
{
    let n = (g * g) as nat;
    let cpb = chunks_per_bucket(g);
    lemma_grid_facts(g);
    if i >= n {
        assert(i * cpb == 1024) by (nonlinear_arith)
            requires
                i == n,
                cpb * n == 1024,
        ;
    } else {
        lemma_v2_blobs(c, ts, g, n);
        let fr = v2_frame(c, ts, i, g);
        let lo: int = v2_blobs(c, ts, g, i).len() as int;
        let pos: int = h.data + lo;
        let fl: int = fr.len() as int;
        assert(v2_blobs(c, ts, g, (i + 1) as nat) == v2_blobs(c, ts, g, i) + fr);
        assert(v2_blobs(c, ts, g, (i + 1) as nat).len() <= v2_blobs(c, ts, g, n).len());
        assert(v2_blobs(c, ts, g, n).subrange(lo, lo + fl) == fr);
        assert(f.subrange(pos, pos + fl) =~= fr) by {
            assert(f.subrange(pos, pos + fl) =~= f.subrange(
                h.data as int,
                (h.data + v2_blobs(c, ts, g, n).len()) as int,
            ).subrange(lo, lo + fl));
        }
        assert(h.metas[i as int] == (fr.len(), xxh64_digest(fr, 0)));
        assert(zstd_decode_result(fr) == Some(v2_bucket_raw(c, ts, i, g, cpb)));
        lemma_v2_records(c, ts, i, g, 0);
        assert(i * cpb + 0 == i * cpb);
        assert(v2_bucket_raw(c, ts, i, g, 0).len() == 0);
        assert((i + 1) * cpb == (i + 1) * cpb);
        lemma_v2_buckets(f, h, c, ts, g, (i + 1) as nat);
    }
}

/// What reading a written v2 file gives: the region itself, as version 2
/// and with the grid it was written with.
pub open spec fn v2_expected(r: LinearView) -> LinearView {
    LinearView { version: LinearVersion::V2, grid_size: v2_grid(r.grid_size), ..r }
}

/// Reading back a written v2 file: whenever every bucket frame fits the
/// size field and decompresses to its records (as zstd promises for frames
/// it wrote), the file reads back as the region, chunk for chunk and
/// timestamp for timestamp.
pub proof fn law_v2_roundtrip(r: LinearView)
    requires
        r.chunks.len() == 1024,
        r.timestamps.len() == 1024,
        storable(r.chunks),
        frames_fit(r.chunks, r.timestamps, v2_grid(r.grid_size)),
        frames_decode(r.chunks, r.timestamps, v2_grid(r.grid_size)),
    ensures
        read_v2_spec(v2_file(r)) == Ok::<LinearView, Seq<char>>(v2_expected(r)),
{
    let c = r.chunks;
    let ts = r.timestamps;
    let g = v2_grid(r.grid_size);
    let n = (g * g) as nat;
    let f = v2_file(r);
    lemma_pow256_values();
    lemma_grid_facts(g);
    let sig = signature_bytes();
    let rx = twos(r.region_x as int, 4);
    let rz = twos(r.region_z as int, 4);
    lemma_twos_roundtrip(r.region_x as int, 4);
    lemma_twos_roundtrip(r.region_z as int, 4);
    lemma_be_bytes_len(LINEAR_SIGNATURE as nat, 8);
    lemma_be_bytes_len(r.newest_timestamp as nat, 8);
    lemma_be_bytes_len(rx, 4);
    lemma_be_bytes_len(rz, 4);
    lemma_be_roundtrip_small(LINEAR_SIGNATURE as nat, 8);
    lemma_be_roundtrip_small(r.newest_timestamp as nat, 8);
    lemma_be_roundtrip_small(rx, 4);
    lemma_be_roundtrip_small(rz, 4);
    lemma_v2_meta_bytes(c, ts, g, n);
    let metas = v2_meta_bytes(c, ts, g, n);
    let blobs = v2_blobs(c, ts, g, n);
    let q: int = (155 + 13 * n) as int;
    let bl: int = blobs.len() as int;
    assert(f.len() == q + blobs.len() + 8);
    assert(f.subrange(0, 8) =~= sig);
    assert(f[8] == 2u8);
    assert(f.subrange(9, 17) =~= be_bytes(r.newest_timestamp as nat, 8));
    assert(f[17] == g);
    assert(f.subrange(18, 22) =~= be_bytes(rx, 4));
    assert(f.subrange(22, 26) =~= be_bytes(rz, 4));
    assert(f[154] == 0u8);
    assert(v2_features_end(f, 154) == Ok::<nat, Seq<char>>(155));
    assert(f.subrange(155, q) =~= metas);
    lemma_v2_metas_parse(f, 155, c, ts, g, n, n);
    lemma_metas_total_blobs(c, ts, g, n, n);
    let ms = v2_meta_view(c, ts, g, n);
    assert(f.subrange(q, q + bl) =~= blobs);
    assert(f.subrange(q + bl, q + bl + 8) =~= sig);
    let h = V2Header {
        newest: r.newest_timestamp,
        grid: g,
        region_x: r.region_x,
        region_z: r.region_z,
        metas: ms,
        data: q as nat,
    };
    assert(v2_header(f) == Ok::<V2Header, Seq<char>>(h));
    lemma_v2_buckets(f, h, c, ts, g, 0);
    assert(v2_blobs(c, ts, g, 0).len() == 0);
    assert(tables_at(c, ts, g, 0) == empty_tables());
    assert(0 * chunks_per_bucket(g) == 0);
    lemma_tables_complete(c, ts, g);
}

} // verus!
