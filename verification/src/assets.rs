//! Texture naming for block faces: which texture stems a renderer tries
//! for a face of a block, and which blocks take a biome tint.

use vstd::prelude::*;
use crate::blockstate::strip_ns;
use crate::text::{
    append_str, chars_of, ends_with, ends_with_str, eq_str, rsplit_once_chars, string_of,
};

verus! {

/// Face of a unit cube (world axes).
#[derive(Clone, Copy, Debug, PartialEq, Eq, Hash, Structural)]
pub enum CubeFace {
    NegX,
    PosX,
    NegY,
    PosY,
    NegZ,
    PosZ,
}

impl CubeFace {
    pub fn is_top(self) -> (r: bool)
        ensures
            r == (self == CubeFace::PosY),
    {
        match self {
            CubeFace::PosY => true,
            _ => false,
        }
    }

    pub fn is_bottom(self) -> (r: bool)
        ensures
            r == (self == CubeFace::NegY),
    {
        match self {
            CubeFace::NegY => true,
            _ => false,
        }
    }
}

/// The block name without its namespace (after the last `:`).
pub fn block_stem(block_name: &str) -> (r: String)
    ensures
        r@ == strip_ns(block_name@),
{
    let n = chars_of(block_name);
    match rsplit_once_chars(&n, ':') {
        Some((_, b)) => string_of(&b),
        None => string_of(&n),
    }
}

/// Top / bottom / side candidates of a block whose sides differ.
pub open spec fn three_faces(face: CubeFace, top: Seq<char>, bottom: Seq<char>, side: Seq<char>) -> Seq<
    Seq<char>,
> {
    if face == CubeFace::PosY {
        seq![top]
    } else if face == CubeFace::NegY {
        seq![bottom]
    } else {
        seq![side]
    }
}

/// Whether a stem names a log-like block (textured on its ends).
pub open spec fn log_like(stem: Seq<char>) -> bool {
    ends_with(stem, "_log"@) || ends_with(stem, "_wood"@) || ends_with(stem, "_stem"@) || ends_with(
        stem,
        "_hyphae"@,
    )
}

/// Heuristic face → texture stem list, most specific first.
pub open spec fn face_candidates(stem: Seq<char>, face: CubeFace) -> Seq<Seq<char>> {
    let top = face == CubeFace::PosY;
    let bottom = face == CubeFace::NegY;
    if stem == "grass_block"@ {
        three_faces(face, "grass_block_top"@, "dirt"@, "grass_block_side"@)
    } else if stem == "mycelium"@ {
        three_faces(face, "mycelium_top"@, "dirt"@, "mycelium_side"@)
    } else if stem == "podzol"@ {
        three_faces(face, "podzol_top"@, "dirt"@, "podzol_side"@)
    } else if stem == "crimson_nylium"@ || stem == "warped_nylium"@ {
        three_faces(face, stem, "netherrack"@, stem + "_side"@)
    } else if stem == "water"@ {
        seq!["water_still"@, "water"@]
    } else if stem == "lava"@ {
        seq!["lava_still"@, "lava"@]
    } else if stem == "snow_block"@ {
        seq!["snow"@]
    } else if stem == "magma_block"@ {
        seq!["magma"@]
    } else if log_like(stem) {
        if top || bottom {
            seq![stem + "_top"@, stem]
        } else {
            seq![stem]
        }
    } else if top {
        seq![stem + "_top"@, stem]
    } else if bottom {
        seq![stem + "_bottom"@, stem + "_top"@, stem]
    } else {
        seq![stem + "_side"@, stem]
    }
}

pub open spec fn string_views(v: Seq<String>) -> Seq<Seq<char>> {
    v.map_values(|s: String| s@)
}

fn lit(s: &str) -> (r: String)
    ensures
        r@ == s@,
{
    string_of(&chars_of(s))
}

fn suffixed(stem: &str, suffix: &str) -> (r: String)
    ensures
        r@ == stem@ + suffix@,
{
    let mut m = chars_of(stem);
    append_str(&mut m, suffix);
    string_of(&m)
}

fn pick3(face: CubeFace, top: String, bottom: String, side: String) -> (r: Vec<String>)
    ensures
        string_views(r@) == three_faces(face, top@, bottom@, side@),
{
    let mut out: Vec<String> = Vec::new();
    if face.is_top() {
        out.push(top);
    } else if face.is_bottom() {
        out.push(bottom);
    } else {
        out.push(side);
    }
    assert(string_views(out@) =~= three_faces(face, top@, bottom@, side@));
    out
}

/// Heuristic face → texture stem list (no full blockstate models here).
pub fn face_texture_candidates(stem: &str, face: CubeFace) -> (r: Vec<String>)
    ensures
        string_views(r@) == face_candidates(stem@, face),
{
    let s = chars_of(stem);
    let mut out: Vec<String> = Vec::new();
    if eq_str(&s, "grass_block") {
        return pick3(face, lit("grass_block_top"), lit("dirt"), lit("grass_block_side"));
    } else if eq_str(&s, "mycelium") {
        return pick3(face, lit("mycelium_top"), lit("dirt"), lit("mycelium_side"));
    } else if eq_str(&s, "podzol") {
        return pick3(face, lit("podzol_top"), lit("dirt"), lit("podzol_side"));
    } else if eq_str(&s, "crimson_nylium") || eq_str(&s, "warped_nylium") {
        return pick3(face, lit(stem), lit("netherrack"), suffixed(stem, "_side"));
    } else if eq_str(&s, "water") {
        out.push(lit("water_still"));
        out.push(lit("water"));
    } else if eq_str(&s, "lava") {
        out.push(lit("lava_still"));
        out.push(lit("lava"));
    } else if eq_str(&s, "snow_block") {
        out.push(lit("snow"));
    } else if eq_str(&s, "magma_block") {
        out.push(lit("magma"));
    } else if ends_with_str(&s, "_log") || ends_with_str(&s, "_wood") || ends_with_str(&s, "_stem")
        || ends_with_str(&s, "_hyphae") {
        if face.is_top() || face.is_bottom() {
            out.push(suffixed(stem, "_top"));
        }
        out.push(lit(stem));
    } else {
        if face.is_top() {
            out.push(suffixed(stem, "_top"));
        } else if face.is_bottom() {
            out.push(suffixed(stem, "_bottom"));
            out.push(suffixed(stem, "_top"));
        } else {
            out.push(suffixed(stem, "_side"));
        }
        out.push(lit(stem));
    }
    assert(string_views(out@) =~= face_candidates(stem@, face));
    out
}

/// Whether `p` occurs in `s`.
pub open spec fn contains_seq(s: Seq<char>, p: Seq<char>) -> bool {
    exists|i: int| 0 <= i && i + p.len() <= s.len() && #[trigger] s.subrange(i, i + p.len()) == p
}

fn matches_at(s: &[char], p: &[char], i: usize) -> (r: bool)
    requires
        i + p.len() <= s.len(),
    ensures
        r == (s@.subrange(i as int, i + p@.len()) == p@),
{
    let mut k: usize = 0;
    while k < p.len()
        invariant
            i + p.len() <= s.len(),
            k <= p@.len(),
            s@.subrange(i as int, i + k) == p@.subrange(0, k as int),
        decreases p.len() - k,
    {
        if s[i + k] != p[k] {
            assert(s@.subrange(i as int, i + p@.len())[k as int] != p@[k as int]);
            return false;
        }
        k += 1;
        assert(s@.subrange(i as int, i + k) =~= p@.subrange(0, k as int));
    }
    assert(p@.subrange(0, p@.len() as int) =~= p@);
    true
}

/// Whether the literal `p` occurs in `s`.
pub fn contains_str(s: &[char], p: &str) -> (r: bool)
    ensures
        r == contains_seq(s@, p@),
{
    let pc = chars_of(p);
    if pc.len() > s.len() {
        return false;
    }
    let last: usize = s.len() - pc.len();
    let mut i: usize = 0;
    loop
        invariant
            pc@ == p@,
            last + pc.len() == s.len(),
            i <= last,
            forall|j: int| 0 <= j < i ==> #[trigger] s@.subrange(j, j + pc@.len()) != pc@,
        decreases last - i,
    {
        if matches_at(s, &pc, i) {
            return true;
        }
        if i == last {
            return false;
        }
        i += 1;
    }
}

/// Whether a block's grayscale overlay textures need palette tint.
pub open spec fn needs_tint(name: Seq<char>) -> bool {
    let n = strip_ns(name);
    contains_seq(n, "grass"@) || contains_seq(n, "leaves"@) || contains_seq(n, "vine"@) || n
        == "fern"@ || n == "large_fern"@
}

/// Whether this block's grayscale overlay textures need palette tint (grass/leaves).
pub fn needs_biome_tint(block_name: &str) -> (r: bool)
    ensures
        r == needs_tint(block_name@),
{
    let stem = block_stem(block_name);
    let n = chars_of(stem.as_str());
    contains_str(&n, "grass") || contains_str(&n, "leaves") || contains_str(&n, "vine") || eq_str(
        &n,
        "fern",
    ) || eq_str(&n, "large_fern")
}

} // verus!
