//! Region file naming and coordinates: which `r.X.Z.mca` / `r.X.Z.linear`
//! file holds a chunk, and where in it.

use vstd::prelude::*;
use crate::linear::{LinearRegion, LinearVersion};
use crate::text::{
    append_str, chars_of, ends_with, ends_with_str, eq_str, int_text, parse_in_range,
    parse_int_chars, push_int, slice_vec, split, split_chars, string_of, strip_suffix, trim,
    trimmed, views,
};

verus! {

/// Region coordinates of a chunk (`>> 5`, rounding toward −∞).
pub fn region_coords(chunk_x: i32, chunk_z: i32) -> (r: (i32, i32))
    ensures
        r.0 as int == chunk_x as int / 32,
        r.1 as int == chunk_z as int / 32,
{
    proof {
        lemma_shr5(chunk_x);
        lemma_shr5(chunk_z);
    }
    (chunk_x >> 5u32, chunk_z >> 5u32)
}

proof fn lemma_shr5(x: i32)
    ensures
        (x >> 5u32) as int == x / 32,
{
    assert((x >> 5u32) * 32 <= x && x < (x >> 5u32) * 32 + 32) by (bit_vector);
    vstd::arithmetic::div_mod::lemma_fundamental_div_mod(x as int, 32);
}

/// Chunk position inside its region (the low five bits of each coordinate).
pub fn local_chunk(chunk_x: i32, chunk_z: i32) -> (r: (u8, u8))
    ensures
        r.0 as int == chunk_x as int % 32,
        r.1 as int == chunk_z as int % 32,
{
    proof {
        lemma_low5(chunk_x);
        lemma_low5(chunk_z);
    }
    ((chunk_x & 31) as u8, (chunk_z & 31) as u8)
}

proof fn lemma_low5(x: i32)
    ensures
        (x & 31) as u8 as int == x % 32,
{
    assert(0 <= (x & 31) < 32) by (bit_vector);
    assert((x & 31) as u8 as i32 == (x & 31)) by (bit_vector);
    assert(x & 31 == x - (x >> 5u32) * 32) by (bit_vector);
    lemma_shr5(x);
}

/// `r.{rx}.{rz}` followed by `ext`.
pub open spec fn region_name(rx: i32, rz: i32, ext: Seq<char>) -> Seq<char> {
    "r."@ + int_text(rx as int) + "."@ + int_text(rz as int) + ext
}

fn name_with(rx: i32, rz: i32, ext: &str) -> (r: String)
    ensures
        r@ == region_name(rx, rz, ext@),
{
    let mut m = chars_of("r.");
    push_int(&mut m, rx as i64);
    append_str(&mut m, ".");
    push_int(&mut m, rz as i64);
    append_str(&mut m, ext);
    string_of(&m)
}

/// `r.X.Z.mca`.
pub fn region_file_name(rx: i32, rz: i32) -> (r: String)
    ensures
        r@ == region_name(rx, rz, ".mca"@),
{
    name_with(rx, rz, ".mca")
}

/// `r.X.Z.linear`.
pub fn linear_file_name(rx: i32, rz: i32) -> (r: String)
    ensures
        r@ == region_name(rx, rz, ".linear"@),
{
    name_with(rx, rz, ".linear")
}

/// `r.X.Z.linear.source`: marks a work `.mca` converted from a Linear source.
pub fn linear_source_marker_name(rx: i32, rz: i32) -> (r: String)
    ensures
        r@ == region_name(rx, rz, ".linear.source"@),
{
    name_with(rx, rz, ".linear.source")
}

#[derive(Clone, Copy, Debug, PartialEq, Eq, Structural)]
pub enum RegionFormat {
    Anvil,
    LinearV1,
    LinearV2,
}

/// The format a region file name announces.
pub open spec fn format_of_name(name: Seq<char>) -> Option<RegionFormat> {
    if ends_with(name, ".mca"@) {
        Some(RegionFormat::Anvil)
    } else if ends_with(name, ".linear"@) {
        Some(RegionFormat::LinearV1)
    } else {
        None
    }
}

impl RegionFormat {
    /// The format announced by a path's file name (`None` for a path without
    /// a UTF-8 file name). A `.linear` file counts as v1 until its bytes are
    /// probed.
    pub fn from_path(file_name: Option<&str>) -> (r: Option<Self>)
        ensures
            r == match file_name {
                Some(n) => format_of_name(n@),
                None => None,
            },
    {
        match file_name {
            None => None,
            Some(n) => {
                let c = chars_of(n);
                if ends_with_str(&c, ".mca") {
                    Some(RegionFormat::Anvil)
                } else if ends_with_str(&c, ".linear") {
                    Some(RegionFormat::LinearV1)
                } else {
                    None
                }
            },
        }
    }

    pub fn is_linear(self) -> (r: bool)
        ensures
            r == (self != RegionFormat::Anvil),
    {
        match self {
            RegionFormat::Anvil => false,
            _ => true,
        }
    }
}

/// The stem of a region file name: without `.mca`, else without `.linear`.
pub open spec fn region_stem(name: Seq<char>) -> Seq<char> {
    match strip_suffix(name, ".mca"@) {
        Some(s) => s,
        None => match strip_suffix(name, ".linear"@) {
            Some(s) => s,
            None => name,
        },
    }
}

pub open spec fn parse_coord(part: Option<Seq<char>>, missing: Seq<char>, bad: Seq<char>) -> Result<
    i32,
    Seq<char>,
> {
    match part {
        None => Err(missing),
        Some(p) => match parse_in_range(p, true, i32::MIN as int, i32::MAX as int) {
            Some(v) => Ok(v as i32),
            None => Err(bad),
        },
    }
}

pub open spec fn nth_part(parts: Seq<Seq<char>>, i: int) -> Option<Seq<char>> {
    if i < parts.len() {
        Some(parts[i])
    } else {
        None
    }
}

/// Region coordinates from a file name `r.X.Z.mca` / `r.X.Z.linear`.
pub open spec fn parse_region_name_spec(name: Seq<char>) -> Result<(i32, i32), Seq<char>> {
    let parts = split(region_stem(name), '.');
    if nth_part(parts, 0) != Some("r"@) {
        Err("bad region name "@ + name)
    } else {
        match parse_coord(nth_part(parts, 1), "missing rx"@, "bad rx"@) {
            Err(m) => Err(m),
            Ok(rx) => match parse_coord(nth_part(parts, 2), "missing rz"@, "bad rz"@) {
                Err(m) => Err(m),
                Ok(rz) => Ok((rx, rz)),
            },
        }
    }
}

fn parse_coord_part(parts: &Vec<Vec<char>>, i: usize, missing: &str, bad: &str) -> (r: Result<
    i32,
    String,
>)
    ensures
        match parse_coord(
            nth_part(views(parts@), i as int),
            missing@,
            bad@,
        ) {
            Ok(v) => r == Ok::<i32, String>(v),
            Err(m) => r is Err && r->Err_0@ == m,
        },
{
    if i >= parts.len() {
        return Err(string_of(&chars_of(missing)));
    }
    assert(views(parts@)[i as int] == parts@[i as int]@);
    match parse_int_chars(&parts[i], true, i32::MIN as i64, i32::MAX as i64) {
        Some(v) => Ok(v as i32),
        None => Err(string_of(&chars_of(bad))),
    }
}

/// Region coordinates from a file name `r.X.Z.mca` / `r.X.Z.linear`.
pub fn parse_region_name(name: &str) -> (r: Result<(i32, i32), String>)
    ensures
        match parse_region_name_spec(name@) {
            Ok(v) => r == Ok::<(i32, i32), String>(v),
            Err(m) => r is Err && r->Err_0@ == m,
        },
{
    let n = chars_of(name);
    proof {
        reveal_strlit(".mca");
        reveal_strlit(".linear");
    }
    let stem = if ends_with_str(&n, ".mca") {
        slice_vec(&n, 0, n.len() - 4)
    } else if ends_with_str(&n, ".linear") {
        slice_vec(&n, 0, n.len() - 7)
    } else {
        n
    };
    assert(stem@ == region_stem(name@));
    let parts = split_chars(&stem, '.');
    let ghost pv = views(parts@);
    assert(pv == split(region_stem(name@), '.'));
    let is_r = parts.len() > 0 && eq_str(&parts[0], "r");
    if parts.len() > 0 {
        assert(pv[0] == parts@[0]@);
    }
    if !is_r {
        let mut m = chars_of("bad region name ");
        append_str(&mut m, name);
        return Err(string_of(&m));
    }
    let rx = match parse_coord_part(&parts, 1, "missing rx", "bad rx") {
        Ok(v) => v,
        Err(e) => return Err(e),
    };
    let rz = match parse_coord_part(&parts, 2, "missing rz", "bad rz") {
        Ok(v) => v,
        Err(e) => return Err(e),
    };
    Ok((rx, rz))
}

/// The Linear version a source marker records: `v2` or `2` (trimmed) is v2,
/// anything else v1.
pub open spec fn marker_version(text: Seq<char>) -> LinearVersion {
    if trim(text) == "v2"@ || trim(text) == "2"@ {
        LinearVersion::V2
    } else {
        LinearVersion::V1
    }
}

/// Reads the version out of a Linear source marker's text.
pub fn linear_marker_version(text: &str) -> (r: LinearVersion)
    ensures
        r == marker_version(text@),
{
    let t = trimmed(text);
    if eq_str(&t, "v2") || eq_str(&t, "2") {
        LinearVersion::V2
    } else {
        LinearVersion::V1
    }
}

/// What a Linear source marker holds for a version: `v1` or `v2` and a
/// newline.
pub fn linear_marker_text(version: LinearVersion) -> (r: String)
    ensures
        r@ == match version {
            LinearVersion::V1 => "v1\n"@,
            LinearVersion::V2 => "v2\n"@,
        },
{
    match version {
        LinearVersion::V1 => string_of(&chars_of("v1\n")),
        LinearVersion::V2 => string_of(&chars_of("v2\n")),
    }
}

/// Writing a marker and reading it back gives the version written.
pub proof fn law_marker_roundtrip(version: LinearVersion)
    ensures
        marker_version(
            match version {
                LinearVersion::V1 => "v1\n"@,
                LinearVersion::V2 => "v2\n"@,
            },
        ) == version,
{
    reveal_strlit("v1\n");
    reveal_strlit("v2\n");
    reveal_strlit("v1");
    reveal_strlit("v2");
    reveal_strlit("2");
    crate::text::lemma_trim_end_is("v1\n"@, 2);
    crate::text::lemma_trim_end_is("v2\n"@, 2);
    crate::text::lemma_trim_start_is("v1\n"@, 0);
    crate::text::lemma_trim_start_is("v2\n"@, 0);
    assert("v1\n"@.skip(0) =~= "v1\n"@);
    assert("v2\n"@.skip(0) =~= "v2\n"@);
    assert(trim("v1\n"@) =~= "v1"@);
    assert(trim("v2\n"@) =~= "v2"@);
    assert("v1"@[1] != "v2"@[1]);
}

/// Region coordinates of the region files among `names`, first occurrence
/// first: names ending `.mca` or `.linear` that parse as `r.X.Z`, each
/// coordinate pair once.
pub open spec fn coords_of_names(names: Seq<Seq<char>>) -> Seq<(i32, i32)>
    decreases names.len(),
{
    if names.len() == 0 {
        seq![]
    } else {
        let acc = coords_of_names(names.drop_last());
        let n = names.last();
        if ends_with(n, ".mca"@) || ends_with(n, ".linear"@) {
            match parse_region_name_spec(n) {
                Ok(c) => if acc.contains(c) {
                    acc
                } else {
                    acc.push(c)
                },
                Err(_) => acc,
            }
        } else {
            acc
        }
    }
}

/// The region coordinates that a directory listing names (see
/// `coords_of_names`).
pub fn region_file_coords(names: &Vec<String>) -> (r: Vec<(i32, i32)>)
    ensures
        r@ == coords_of_names(names@.map_values(|s: String| s@)),
{
    let ghost nv = names@.map_values(|s: String| s@);
    let mut out: Vec<(i32, i32)> = Vec::new();
    let mut i: usize = 0;
    assert(nv.take(0) =~= Seq::<Seq<char>>::empty());
    while i < names.len()
        invariant
            i <= names@.len(),
            nv == names@.map_values(|s: String| s@),
            out@ == coords_of_names(nv.take(i as int)),
        decreases names.len() - i,
    {
        assert(nv.take(i + 1).drop_last() =~= nv.take(i as int));
        assert(nv.take(i + 1).last() == names@[i as int]@);
        let n = chars_of(names[i].as_str());
        if ends_with_str(&n, ".mca") || ends_with_str(&n, ".linear") {
            if let Ok(c) = parse_region_name(names[i].as_str()) {
                let mut seen = false;
                let mut j: usize = 0;
                while j < out.len()
                    invariant
                        j <= out@.len(),
                        seen == (exists|k: int| 0 <= k < j && out@[k] == c),
                    decreases out.len() - j,
                {
                    if out[j].0 == c.0 && out[j].1 == c.1 {
                        seen = true;
                    }
                    j += 1;
                }
                if !seen {
                    out.push(c);
                } else {
                    assert(out@.contains(c));
                }
            }
        }
        i += 1;
    }
    assert(nv.take(names@.len() as int) =~= nv);
    out
}

/// The chunk coordinates of the chunks a Linear region holds, in z-then-x
/// order of their slots.
pub open spec fn present_upto(chunks: Seq<Option<Seq<u8>>>, rx: i32, rz: i32, n: nat) -> Seq<(i32, i32)>
    decreases n,
{
    if n == 0 {
        seq![]
    } else {
        let i = n - 1;
        let acc = present_upto(chunks, rx, rz, (n - 1) as nat);
        if chunks[i] is Some {
            acc.push((((rx as int) * 32 + i % 32) as i32, ((rz as int) * 32 + i / 32) as i32))
        } else {
            acc
        }
    }
}

/// The chunks present in a Linear region, as chunk coordinates.
pub fn linear_present_chunks(linear: &LinearRegion, rx: i32, rz: i32) -> (r: Vec<(i32, i32)>)
    requires
        linear.chunks@.len() == 1024,
        -67108864 <= rx < 67108864,
        -67108864 <= rz < 67108864,
    ensures
        r@ == present_upto(linear@.chunks, rx, rz, 1024),
{
    let mut out: Vec<(i32, i32)> = Vec::new();
    let mut z: u8 = 0;
    while z < 32
        invariant
            z <= 32,
            linear.chunks@.len() == 1024,
            -67108864 <= rx < 67108864,
            -67108864 <= rz < 67108864,
            out@ == present_upto(linear@.chunks, rx, rz, (z as nat) * 32),
        decreases 32 - z,
    {
        let mut x: u8 = 0;
        while x < 32
            invariant
                x <= 32,
                z < 32,
                linear.chunks@.len() == 1024,
                -67108864 <= rx < 67108864,
                -67108864 <= rz < 67108864,
                out@ == present_upto(linear@.chunks, rx, rz, (z as nat) * 32 + x as nat),
            decreases 32 - x,
        {
            let ghost n = (z as nat) * 32 + x as nat;
            assert(n % 32 == x as int && n / 32 == z as int);
            let present = linear.get(x, z).is_some();
            if present {
                assert((rx << 5) == rx * 32) by (bit_vector)
                    requires
                        -67108864 <= rx < 67108864,
                ;
                assert((rz << 5) == rz * 32) by (bit_vector)
                    requires
                        -67108864 <= rz < 67108864,
                ;
                let cx = (rx << 5) + x as i32;
                let cz = (rz << 5) + z as i32;
                out.push((cx, cz));
            }
            x += 1;
        }
        z += 1;
    }
    out
}

proof fn lemma_stem_parts(rx: i32, rz: i32)
    ensures
        split("r."@ + int_text(rx as int) + "."@ + int_text(rz as int), '.') == seq![
            "r"@,
            int_text(rx as int),
            int_text(rz as int),
        ],
{
    reveal_strlit("r.");
    reveal_strlit(".");
    reveal_strlit("r");
    let a = int_text(rx as int);
    let b = int_text(rz as int);
    crate::text::lemma_parse_int_text(rx as int);
    crate::text::lemma_parse_int_text(rz as int);
    let stem = "r."@ + a + "."@ + b;
    assert(stem =~= "r"@ + seq!['.'] + (a + seq!['.'] + b));
    crate::text::lemma_split_first("r"@, a + seq!['.'] + b, '.');
    crate::text::lemma_split_first(a, b, '.');
    crate::text::lemma_split_none(b, '.');
}

/// A region file name as `region_file_name` or `linear_file_name` writes it
/// reads back as the same region coordinates.
pub proof fn law_region_name_round_trip(rx: i32, rz: i32)
    ensures
        parse_region_name_spec(region_name(rx, rz, ".mca"@)) == Ok::<(i32, i32), Seq<char>>((rx, rz)),
        parse_region_name_spec(region_name(rx, rz, ".linear"@)) == Ok::<(i32, i32), Seq<char>>(
            (rx, rz),
        ),
{
    reveal_strlit(".mca");
    reveal_strlit(".linear");
    reveal_strlit("r.");
    reveal_strlit(".");
    let stem = "r."@ + int_text(rx as int) + "."@ + int_text(rz as int);
    lemma_stem_parts(rx, rz);
    crate::text::lemma_parse_int_text(rx as int);
    crate::text::lemma_parse_int_text(rz as int);
    let m = stem + ".mca"@;
    assert(region_name(rx, rz, ".mca"@) == m);
    assert(m.skip(m.len() - 4) =~= ".mca"@);
    assert(m.take(m.len() - 4) =~= stem);
    assert(region_stem(m) == stem);
    let l = stem + ".linear"@;
    assert(region_name(rx, rz, ".linear"@) == l);
    assert(l.skip(l.len() - 4)[0] == 'n');
    assert(!ends_with(l, ".mca"@));
    assert(l.skip(l.len() - 7) =~= ".linear"@);
    assert(l.take(l.len() - 7) =~= stem);
    assert(region_stem(l) == stem);
}

} // verus!
