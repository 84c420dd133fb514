//! Converting between Linear regions and Anvil `.mca` region files.

use vstd::prelude::*;
use crate::linear::{chunk_view, chunks_view, LinearRegion, LinearVersion, LinearView};
use crate::error::Error;
use crate::bigendian::{be_value, read_be};

verus! {

/// What `mca::RegionReader::chunk(x, z)` returns for a reader over `region`:
/// the decompressed chunk, `Some(None)` for an absent one, `None` where it
/// reports an error.
pub uninterp spec fn mca_chunk_result(region: Seq<u8>, x: u8, z: u8) -> Option<Option<Seq<u8>>>;

/// The byte offset that the location entry of chunk (x, z) points to.
pub open spec fn record_offset(b: Seq<u8>, x: u8, z: u8) -> int {
    let l = 4 * (x + 32 * z);
    (b[l] * 65536 + b[l + 1] * 256 + b[l + 2]) * 4096
}

/// Whether the location entry of chunk (x, z) is all zero (no chunk).
pub open spec fn record_absent(b: Seq<u8>, x: u8, z: u8) -> bool {
    let l = 4 * (x + 32 * z);
    b[l] == 0 && b[l + 1] == 0 && b[l + 2] == 0 && b[l + 3] == 0
}

/// The chunk record at (x, z) is one the Anvil reader handles without
/// panicking: absent; or at an offset it can compute, and then either cut
/// off by the end of the file (an error), empty (an error), marked with a
/// built-in compression byte (below 127), or long enough to hold the custom
/// compression name its header announces.
pub open spec fn chunk_record_safe(b: Seq<u8>, x: u8, z: u8) -> bool {
    let off = record_offset(b, x, z);
    record_absent(b, x, z) || (off + 0x1_0000_0010 <= usize::MAX && (off + 4 > b.len() || {
        let dl = be_value(b.subrange(off, off + 4));
        off + 4 + dl > b.len() || dl == 0 || b[off + 4] < 127 || (dl >= 3 && 3 + b[off + 5] * 256
            + b[off + 6] <= dl)
    }))
}

/// Every chunk record of an Anvil file is one the reader handles (a file
/// shorter than its header holds none).
pub open spec fn mca_records_safe(b: Seq<u8>) -> bool {
    b.len() < 8192 || forall|x: u8, z: u8| x < 32 && z < 32 ==> #[trigger] chunk_record_safe(b, x, z)
}

/// Checks one chunk record (see `chunk_record_safe`).
pub fn chunk_record_ok(b: &[u8], x: u8, z: u8) -> (r: bool)
    requires
        b@.len() >= 8192,
        x < 32,
        z < 32,
    ensures
        r == chunk_record_safe(b@, x, z),
{
    let l: usize = 4 * (x as usize + 32 * z as usize);
    if b[l] == 0 && b[l + 1] == 0 && b[l + 2] == 0 && b[l + 3] == 0 {
        return true;
    }
    let off: u64 = (b[l] as u64 * 65536 + b[l + 1] as u64 * 256 + b[l + 2] as u64) * 4096;
    assert(off == record_offset(b@, x, z));
    if off + 0x1_0000_0010 > usize::MAX as u64 {
        return false;
    }
    let offu = off as usize;
    if offu + 4 > b.len() {
        return true;
    }
    let dl = read_be(b, offu, 4);
    if offu as u128 + 4 + dl as u128 > b.len() as u128 || dl == 0 || b[offu + 4] < 127 {
        return true;
    }
    dl >= 3 && 3 + b[offu + 5] as u64 * 256 + b[offu + 6] as u64 <= dl
}

/// Checks every chunk record of an Anvil file (see `mca_records_safe`).
pub fn mca_records_ok(b: &[u8]) -> (r: bool)
    ensures
        r == mca_records_safe(b@),
{
    if b.len() < 8192 {
        return true;
    }
    let mut z: u8 = 0;
    while z < 32
        invariant
            z <= 32,
            b@.len() >= 8192,
            forall|x: u8, zz: u8| x < 32 && zz < z ==> #[trigger] chunk_record_safe(b@, x, zz),
        decreases 32 - z,
    {
        let mut x: u8 = 0;
        while x < 32
            invariant
                z < 32,
                x <= 32,
                b@.len() >= 8192,
                forall|xx: u8, zz: u8| xx < 32 && zz < z ==> #[trigger] chunk_record_safe(b@, xx, zz),
                forall|xx: u8| xx < x ==> #[trigger] chunk_record_safe(b@, xx, z),
            decreases 32 - x,
        {
            if !chunk_record_ok(b, x, z) {
                return false;
            }
            x += 1;
        }
        z += 1;
    }
    true
}

/// Reads one chunk of an Anvil region with `mca::RegionReader::new` and
/// `RegionReader::chunk`. The reader refuses data shorter than its two
/// header sectors, and it indexes a record with a custom compression byte
/// (127 or more) without checking its length; `requires` rules out both
/// (`chunk_record_safe`). The chunk read is named by `mca_chunk_result` and
/// its error carries the crate's message.
#[verifier::external_body]
fn mca_read_chunk(region: &[u8], x: u8, z: u8) -> (r: Result<Option<Vec<u8>>, String>)
    requires
        region@.len() >= 8192,
        x < 32,
        z < 32,
        chunk_record_safe(region@, x, z),
    ensures
        match r {
            Ok(Some(v)) => mca_chunk_result(region@, x, z) == Some(Some(v@)),
            Ok(None) => mca_chunk_result(region@, x, z) == Some(None::<Seq<u8>>),
            Err(_) => mca_chunk_result(region@, x, z) is None,
        },
{
    match mca::RegionReader::new(region) {
        Err(e) => Err(e.to_string()),
        Ok(mut reader) => match reader.chunk(x, z) {
            Ok(Some(raw)) => Ok(Some(raw.to_vec())),
            Ok(None) => Ok(None),
            Err(e) => Err(e.to_string()),
        },
    }
}

/// An `mca::RegionWriter` being filled.
#[verifier::external_body]
pub struct McaWriter {
    inner: mca::RegionWriter<'static>,
}

/// The chunks a writer holds, by (x, z).
pub uninterp spec fn mca_writer_chunks(w: McaWriter) -> Map<(u8, u8), Seq<u8>>;

/// How many times a chunk was set on the writer (its `u16` counter).
pub uninterp spec fn mca_writer_sets(w: McaWriter) -> nat;

/// `mca::RegionWriter::new`: no chunks.
#[verifier::external_body]
fn mca_writer_new() -> (r: McaWriter)
    ensures
        mca_writer_chunks(r) =~= Map::empty(),
        mca_writer_sets(r) == 0,
{
    McaWriter { inner: mca::RegionWriter::new() }
}

/// `RegionWriter::set_chunk` with zlib, the crate's default compression: the
/// chunk at (x, z) of the region is stored, replacing an earlier one. The
/// crate counts every set in a `u16`, so `requires` keeps that counter from
/// overflowing; coordinates outside the region are not admitted.
#[verifier::external_body]
fn mca_writer_set(w: &mut McaWriter, x: u8, z: u8, data: Vec<u8>) -> (r: Result<(), String>)
    requires
        x < 32,
        z < 32,
        mca_writer_sets(*old(w)) < 0xffff,
    ensures
        r is Ok,
        mca_writer_chunks(*final(w)) == mca_writer_chunks(*old(w)).insert((x, z), data@),
        mca_writer_sets(*final(w)) == mca_writer_sets(*old(w)) + 1,
{
    match w.inner.set_chunk(x, z, data, mca::Compression::default()) {
        Ok(()) => Ok(()),
        Err(e) => Err(e.to_string()),
    }
}

/// `RegionWriter::write` into a fresh buffer. The crate writes the two
/// header sectors (locations, then timestamps) and then each stored chunk,
/// zlib-compressed with its length and compression byte, padded to whole
/// sectors; a location entry stays zero for a chunk that was not stored, and
/// a reader finds a zero entry absent. Claimed: the bytes hold at least the
/// header; `RegionReader::chunk` on them reports every unstored chunk absent;
/// and it gives back every stored chunk with non-empty data when the whole
/// output is under 4 GiB (so that no length or 3-byte sector offset is
/// truncated). Writing zlib chunks into a `Vec` has no error path in the
/// crate, so the call succeeds. Left unsaid: the timestamp table (the time of
/// writing) and what an empty chunk reads back as.
#[verifier::external_body]
fn mca_writer_write(w: McaWriter) -> (r: Result<Vec<u8>, String>)
    ensures
        r is Ok,
        r is Ok ==> r->Ok_0@.len() >= 8192,
        r is Ok ==> forall|x: u8, z: u8|
            x < 32 && z < 32 && !mca_writer_chunks(w).contains_key((x, z)) ==> #[trigger] mca_chunk_result(
                r->Ok_0@,
                x,
                z,
            ) == Some(None::<Seq<u8>>),
        r is Ok ==> forall|x: u8, z: u8|
            x < 32 && z < 32 && mca_writer_chunks(w).contains_key((x, z)) && mca_writer_chunks(w)[(
                x,
                z,
            )].len() > 0 && r->Ok_0@.len() < 0x1_0000_0000 ==> #[trigger] mca_chunk_result(
                r->Ok_0@,
                x,
                z,
            ) == Some(Some(mca_writer_chunks(w)[(x, z)])),
{
    let mut out = Vec::new();
    match w.inner.write(&mut out) {
        Ok(_) => Ok(out),
        Err(e) => Err(e.to_string()),
    }
}

/// The present chunks of a region table, keyed by (x, z).
pub open spec fn present_chunks(c: Seq<Option<Seq<u8>>>) -> Map<(u8, u8), Seq<u8>> {
    Map::new(
        |k: (u8, u8)| k.0 < 32 && k.1 < 32 && c[k.1 * 32 + k.0] is Some,
        |k: (u8, u8)| c[k.1 * 32 + k.0]->0,
    )
}

/// The present chunks among the first `t` table slots (row-major by z).
pub open spec fn present_upto(c: Seq<Option<Seq<u8>>>, t: nat) -> Map<(u8, u8), Seq<u8>> {
    Map::new(
        |k: (u8, u8)| k.0 < 32 && k.1 < 32 && k.1 * 32 + k.0 < t && c[k.1 * 32 + k.0] is Some,
        |k: (u8, u8)| c[k.1 * 32 + k.0]->0,
    )
}

/// A region writer holding exactly the present chunks of a Linear region.
pub fn fill_mca_writer(linear: &LinearRegion) -> (w: McaWriter)
    requires
        linear.chunks@.len() == 1024,
    ensures
        mca_writer_chunks(w) == present_chunks(linear@.chunks),
{
    let ghost c = linear@.chunks;
    let mut w = mca_writer_new();
    let mut z: u8 = 0;
    let mut sets: u16 = 0;
    assert(mca_writer_chunks(w) =~= present_upto(c, 0));
    while z < 32
        invariant
            z <= 32,
            linear.chunks@.len() == 1024,
            c == linear@.chunks,
            mca_writer_chunks(w) == present_upto(c, z as nat * 32),
            mca_writer_sets(w) == sets,
            sets <= z as nat * 32,
        decreases 32 - z,
    {
        let mut x: u8 = 0;
        while x < 32
            invariant
                z < 32,
                x <= 32,
                linear.chunks@.len() == 1024,
                c == linear@.chunks,
                mca_writer_chunks(w) == present_upto(c, z as nat * 32 + x as nat),
                mca_writer_sets(w) == sets,
                sets <= z as nat * 32 + x,
            decreases 32 - x,
        {
            let ghost t: nat = z as nat * 32 + x as nat;
            match linear.get(x, z) {
                Some(nbt) => {
                    let ghost before = mca_writer_chunks(w);
                    let data = crate::bigendian::copy_range(nbt, 0, nbt.len());
                    assert(data@ =~= nbt@);
                    assert(c[t as int] == Some(data@));
                    let _ = mca_writer_set(&mut w, x, z, data);
                    sets = sets + 1;
                    assert(mca_writer_chunks(w) =~= present_upto(c, (t + 1) as nat));
                },
                None => {
                    assert(present_upto(c, t) =~= present_upto(c, (t + 1) as nat));
                },
            }
            x += 1;
        }
        z += 1;
    }
    assert(present_upto(c, 1024) =~= present_chunks(c));
    w
}

/// Convert a Linear region into Anvil `.mca` bytes (zlib-compressed chunks).
/// The bytes hold at least the header; an Anvil reader finds every chunk
/// the region lacks absent, and reads back every chunk it holds with
/// non-empty data when the output is under 4 GiB. The conversion always
/// succeeds.
pub fn linear_to_mca_bytes(linear: &LinearRegion) -> (r: Result<Vec<u8>, Error>)
    requires
        linear.chunks@.len() == 1024,
    ensures
        r is Ok,
        r is Ok ==> r->Ok_0@.len() >= 8192,
        r is Ok ==> forall|x: u8, z: u8|
            x < 32 && z < 32 && linear@.chunks[z * 32 + x] is None ==> #[trigger] mca_chunk_result(
                r->Ok_0@,
                x,
                z,
            ) == Some(None::<Seq<u8>>),
        r is Ok ==> forall|x: u8, z: u8|
            x < 32 && z < 32 && linear@.chunks[z * 32 + x] is Some && linear@.chunks[z * 32
                + x]->0.len() > 0 && r->Ok_0@.len() < 0x1_0000_0000 ==> #[trigger] mca_chunk_result(
                r->Ok_0@,
                x,
                z,
            ) == Some(linear@.chunks[z * 32 + x]),
{
    let w = fill_mca_writer(linear);
    let ghost m = mca_writer_chunks(w);
    let ghost c = linear@.chunks;
    assert(m == present_chunks(c));
    match mca_writer_write(w) {
        Ok(out) => {
            assert forall|x: u8, z: u8|
                x < 32 && z < 32 && c[z * 32 + x] is None implies #[trigger] mca_chunk_result(
                out@,
                x,
                z,
            ) == Some(None::<Seq<u8>>) by {
                assert(!m.contains_key((x, z)));
            }
            assert forall|x: u8, z: u8|
                x < 32 && z < 32 && c[z * 32 + x] is Some && c[z * 32 + x]->0.len() > 0
                    && out@.len() < 0x1_0000_0000 implies #[trigger] mca_chunk_result(out@, x, z)
                == Some(c[z * 32 + x]) by {
                assert(m.contains_key((x, z)));
                assert(m[(x, z)] == c[z * 32 + x]->0);
            }
            Ok(out)
        },
        Err(e) => Err(Error::Mca(e)),
    }
}

/// The Linear region read from the first `t` chunk slots of an Anvil file
/// (`None` where the Anvil reader reports an error).
pub open spec fn mca_read_upto(bytes: Seq<u8>, rx: i32, rz: i32, t: nat) -> Option<LinearView>
    decreases t,
{
    if t == 0 {
        Some(
            LinearView {
                version: LinearVersion::V1,
                region_x: rx,
                region_z: rz,
                newest_timestamp: 0,
                chunks: Seq::new(1024, |i: int| None::<Seq<u8>>),
                timestamps: Seq::new(1024, |i: int| 0u32),
                grid_size: 2,
            },
        )
    } else {
        match mca_read_upto(bytes, rx, rz, (t - 1) as nat) {
            None => None,
            Some(v) => {
                let i = (t - 1) as int;
                match mca_chunk_result(bytes, (i % 32) as u8, (i / 32) as u8) {
                    None => None,
                    Some(None) => Some(v),
                    Some(Some(d)) => Some(
                        LinearView {
                            chunks: v.chunks.update(i, Some(d)),
                            timestamps: v.timestamps.update(i, 0),
                            ..v
                        },
                    ),
                }
            },
        }
    }
}

/// Once the Anvil reader has failed, reading further slots keeps that error.
proof fn lemma_read_upto_err_sticks(bytes: Seq<u8>, rx: i32, rz: i32, t: nat, u: nat)
    requires
        t <= u,
        mca_read_upto(bytes, rx, rz, t) is None,
    ensures
        mca_read_upto(bytes, rx, rz, u) == mca_read_upto(bytes, rx, rz, t),
    decreases u - t,
{
    if t < u {
        lemma_read_upto_err_sticks(bytes, rx, rz, t, (u - 1) as nat);
    }
}

/// What `mca_to_linear_v1` gives for an Anvil file.
pub open spec fn mca_to_linear_spec(bytes: Seq<u8>, rx: i32, rz: i32) -> Option<LinearView> {
    if bytes.len() < 8192 {
        mca_read_upto(bytes, rx, rz, 0)
    } else {
        mca_read_upto(bytes, rx, rz, 1024)
    }
}

/// Build a Linear v1 region from Anvil `.mca` bytes: every chunk the Anvil
/// file holds, with timestamp 0. Files shorter than the two header sectors
/// hold no chunks. The Anvil reader panics on a record that announces a
/// custom compression name longer than the record, so such files are left
/// out (`mca_records_ok` tells them apart).
pub fn mca_to_linear_v1(mca_bytes: &[u8], region_x: i32, region_z: i32) -> (r: Result<
    LinearRegion,
    Error,
>)
    requires
        mca_records_safe(mca_bytes@),
    ensures
        match mca_to_linear_spec(mca_bytes@, region_x, region_z) {
            Some(v) => r is Ok && r->Ok_0@ == v,
            None => r is Err && r->Err_0 is Mca,
        },
{
    let mut region = LinearRegion::empty(region_x, region_z);
    if mca_bytes.len() < 8192 {
        return Ok(region);
    }
    let mut z: u8 = 0;
    while z < 32
        invariant
            z <= 32,
            mca_bytes@.len() >= 8192,
            mca_records_safe(mca_bytes@),
            region@.chunks.len() == 1024,
            region.timestamps@.len() == 1024,
            mca_read_upto(mca_bytes@, region_x, region_z, z as nat * 32) == Some(region@),
        decreases 32 - z,
    {
        let mut x: u8 = 0;
        while x < 32
            invariant
                z < 32,
                x <= 32,
                mca_bytes@.len() >= 8192,
                mca_records_safe(mca_bytes@),
                region@.chunks.len() == 1024,
                region.timestamps@.len() == 1024,
                mca_read_upto(mca_bytes@, region_x, region_z, z as nat * 32 + x as nat) == Some(region@),
            decreases 32 - x,
        {
            let ghost t: nat = z as nat * 32 + x as nat;
            assert((t as int) % 32 == x && (t as int) / 32 == z);
            assert(chunk_record_safe(mca_bytes@, x, z));
            match mca_read_chunk(mca_bytes, x, z) {
                Err(e) => {
                    proof {
                        lemma_read_upto_err_sticks(mca_bytes@, region_x, region_z, t + 1, 1024);
                    }
                    return Err(Error::Mca(e));
                },
                Ok(None) => {},
                Ok(Some(raw)) => {
                    region.set(x, z, Some(raw), 0);
                },
            }
            x += 1;
        }
        z += 1;
    }
    Ok(region)
}

} // verus!
