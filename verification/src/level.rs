//! World options: generator and region-format names, and the summary of a
//! `level.dat`.

use vstd::prelude::*;
use crate::mc_version::{ResolvedVersion, MODERN_LEVEL_DAT_MIN};
use crate::nbt::{child, child_of, int_of, int_value, text_of, text_value, Nbt, NbtView};
use crate::text::{
    append, append_str, bool_text, chars_of, eq_str, int_text, lower, lower_chars, push_bool,
    push_int, string_from, string_of, trim, trim_chars,
};

verus! {

#[derive(Clone, Copy, Debug, PartialEq, Eq, Structural)]
pub enum GeneratorKind {
    Noise,
    Flat,
}

pub open spec fn generator_named(s: Seq<char>) -> Result<GeneratorKind, Seq<char>> {
    let t = lower(trim(s));
    if t == "noise"@ || t == "default"@ || t == "normal"@ {
        Ok(GeneratorKind::Noise)
    } else if t == "flat"@ || t == "superflat"@ {
        Ok(GeneratorKind::Flat)
    } else {
        Err("unknown generator `"@ + t + "` (noise|flat)"@)
    }
}

fn lowered_trim(s: &str) -> (r: Vec<char>)
    ensures
        r@ == lower(trim(s@)),
{
    let t = trim_chars(&chars_of(s));
    lower_chars(&t)
}

fn quoted_error(prefix: &str, t: &[char], suffix: &str) -> (r: String)
    ensures
        r@ == prefix@ + t@ + suffix@,
{
    let mut m = chars_of(prefix);
    append(&mut m, t);
    append_str(&mut m, suffix);
    string_of(&m)
}

impl GeneratorKind {
    /// `noise|default|normal` or `flat|superflat`, any case.
    pub fn parse(s: &str) -> (r: Result<Self, String>)
        ensures
            match generator_named(s@) {
                Ok(g) => r == Ok::<GeneratorKind, String>(g),
                Err(m) => r is Err && r->Err_0@ == m,
            },
    {
        let t = lowered_trim(s);
        if eq_str(&t, "noise") || eq_str(&t, "default") || eq_str(&t, "normal") {
            Ok(GeneratorKind::Noise)
        } else if eq_str(&t, "flat") || eq_str(&t, "superflat") {
            Ok(GeneratorKind::Flat)
        } else {
            Err(quoted_error("unknown generator `", &t, "` (noise|flat)"))
        }
    }
}

#[derive(Clone, Copy, Debug, PartialEq, Eq, Structural)]
pub enum RegionFormat {
    Anvil,
    Linear,
}

pub open spec fn region_format_named(s: Seq<char>) -> Result<RegionFormat, Seq<char>> {
    let t = lower(trim(s));
    if t == "anvil"@ || t == "mca"@ {
        Ok(RegionFormat::Anvil)
    } else if t == "linear"@ {
        Ok(RegionFormat::Linear)
    } else {
        Err("unknown region format `"@ + t + "` (anvil|linear)"@)
    }
}

impl RegionFormat {
    /// `anvil|mca` or `linear`, any case.
    pub fn parse(s: &str) -> (r: Result<Self, String>)
        ensures
            match region_format_named(s@) {
                Ok(g) => r == Ok::<RegionFormat, String>(g),
                Err(m) => r is Err && r->Err_0@ == m,
            },
    {
        let t = lowered_trim(s);
        if eq_str(&t, "anvil") || eq_str(&t, "mca") {
            Ok(RegionFormat::Anvil)
        } else if eq_str(&t, "linear") {
            Ok(RegionFormat::Linear)
        } else {
            Err(quoted_error("unknown region format `", &t, "` (anvil|linear)"))
        }
    }
}

/// What creating a world needs.
#[derive(Clone, Debug)]
pub struct WorldCreateOptions {
    pub path: String,
    pub level_name: String,
    pub seed: i64,
    pub spawn: [i32; 3],
    pub game_type: i32,
    pub generator: GeneratorKind,
    pub version: ResolvedVersion,
    pub region_format: RegionFormat,
    /// Create DIM-1 / DIM1 region dirs as well.
    pub all_dims: bool,
    /// Overwrite existing level.dat if present.
    pub force: bool,
}

/// Fields of `level.dat` to change; `None` keeps the stored value.
#[derive(Clone, Debug)]
pub struct LevelPatchOptions<'a> {
    pub level_name: Option<&'a str>,
    pub seed: Option<i64>,
    pub spawn: Option<[i32; 3]>,
    pub game_type: Option<i32>,
    pub data_version: Option<i32>,
    pub version_name: Option<&'a str>,
    pub touch_last_played: bool,
}

/// What a `level.dat` says.
#[derive(Clone, Debug)]
pub struct LevelInfo {
    pub path: String,
    pub level_name: String,
    pub seed: Option<i64>,
    pub spawn: [i32; 3],
    pub game_type: Option<i32>,
    pub data_version: Option<i32>,
    pub version_name: Option<String>,
    pub last_played: Option<i64>,
    pub generator: Option<String>,
    pub modern_layout: bool,
}

/// An optional number as printed in summaries (`-` when absent).
pub open spec fn opt_int_text(v: Option<int>) -> Seq<char> {
    match v {
        Some(n) => int_text(n),
        None => "-"@,
    }
}

/// An optional text as printed in summaries (`-` when absent).
pub open spec fn opt_text(v: Option<Seq<char>>) -> Seq<char> {
    match v {
        Some(t) => t,
        None => "-"@,
    }
}

pub open spec fn opt_i64(v: Option<i64>) -> Option<int> {
    match v {
        Some(n) => Some(n as int),
        None => None,
    }
}

pub open spec fn opt_i32(v: Option<i32>) -> Option<int> {
    match v {
        Some(n) => Some(n as int),
        None => None,
    }
}

pub open spec fn opt_string(v: Option<String>) -> Option<Seq<char>> {
    match v {
        Some(s) => Some(s@),
        None => None,
    }
}

/// `key=` followed by the text.
pub fn line(key: &str, value: &[char]) -> (r: String)
    ensures
        r@ == key@ + value@,
{
    let mut m = chars_of(key);
    append(&mut m, value);
    string_of(&m)
}

/// Decimal text of an optional integer (`-` when absent).
pub fn opt_int_chars(v: Option<i64>) -> (r: Vec<char>)
    ensures
        r@ == opt_int_text(opt_i64(v)),
{
    match v {
        Some(n) => {
            let mut m: Vec<char> = Vec::new();
            push_int(&mut m, n);
            m
        },
        None => chars_of("-"),
    }
}

/// An optional text (`-` when absent).
pub fn opt_chars(v: &Option<String>) -> (r: Vec<char>)
    ensures
        r@ == opt_text(opt_string(*v)),
{
    match v {
        Some(s) => chars_of(s.as_str()),
        None => chars_of("-"),
    }
}

pub open spec fn string_views(v: Seq<String>) -> Seq<Seq<char>> {
    v.map_values(|s: String| s@)
}

impl LevelInfo {
    /// One `key=value` line per field.
    pub fn lines(&self) -> (r: Vec<String>)
        ensures
            string_views(r@) == seq![
                "level.dat="@ + self.path@,
                "LevelName="@ + self.level_name@,
                "Seed="@ + opt_int_text(opt_i64(self.seed)),
                "Spawn="@ + int_text(self.spawn@[0] as int) + ","@ + int_text(self.spawn@[1] as int)
                    + ","@ + int_text(self.spawn@[2] as int),
                "GameType="@ + opt_int_text(opt_i32(self.game_type)),
                "DataVersion="@ + opt_int_text(opt_i32(self.data_version)),
                "Version.Name="@ + opt_text(opt_string(self.version_name)),
                "LastPlayed="@ + opt_int_text(opt_i64(self.last_played)),
                "generator="@ + opt_text(opt_string(self.generator)),
                "modern_layout="@ + bool_text(self.modern_layout),
            ],
    {
        let mut out: Vec<String> = Vec::new();
        out.push(line("level.dat=", &chars_of(self.path.as_str())));
        out.push(line("LevelName=", &chars_of(self.level_name.as_str())));
        out.push(line("Seed=", &opt_int_chars(self.seed)));
        let mut sp: Vec<char> = Vec::new();
        push_int(&mut sp, self.spawn[0] as i64);
        sp.push(',');
        push_int(&mut sp, self.spawn[1] as i64);
        sp.push(',');
        push_int(&mut sp, self.spawn[2] as i64);
        out.push(line("Spawn=", &sp));
        let gt = match self.game_type {
            Some(g) => Some(g as i64),
            None => None,
        };
        out.push(line("GameType=", &opt_int_chars(gt)));
        let dv = match self.data_version {
            Some(g) => Some(g as i64),
            None => None,
        };
        out.push(line("DataVersion=", &opt_int_chars(dv)));
        out.push(line("Version.Name=", &opt_chars(&self.version_name)));
        out.push(line("LastPlayed=", &opt_int_chars(self.last_played)));
        out.push(line("generator=", &opt_chars(&self.generator)));
        let mut ml: Vec<char> = Vec::new();
        push_bool(&mut ml, self.modern_layout);
        out.push(line("modern_layout=", &ml));
        proof {
            reveal_strlit(",");
            assert(sp@ =~= int_text(self.spawn@[0] as int) + ","@ + int_text(self.spawn@[1] as int)
                + ","@ + int_text(self.spawn@[2] as int));
        }
        assert(opt_i64(gt) == opt_i32(self.game_type));
        assert(opt_i64(dv) == opt_i32(self.data_version));
        assert(string_views(out@)[0] == "level.dat="@ + self.path@);
        assert(string_views(out@)[3] == "Spawn="@ + sp@);
        assert(string_views(out@)[3] =~= "Spawn="@ + int_text(self.spawn@[0] as int) + ","@
            + int_text(self.spawn@[1] as int) + ","@ + int_text(self.spawn@[2] as int));
        assert(string_views(out@)[1] == "LevelName="@ + self.level_name@);
        assert(string_views(out@)[2] == "Seed="@ + opt_int_text(opt_i64(self.seed)));
        assert(string_views(out@)[4] == "GameType="@ + opt_int_text(opt_i32(self.game_type)));
        assert(string_views(out@)[5] == "DataVersion="@ + opt_int_text(opt_i32(self.data_version)));
        assert(string_views(out@)[6] == "Version.Name="@ + opt_text(opt_string(self.version_name)));
        assert(string_views(out@)[7] == "LastPlayed="@ + opt_int_text(opt_i64(self.last_played)));
        assert(string_views(out@)[8] == "generator="@ + opt_text(opt_string(self.generator)));
        assert(string_views(out@)[9] == "modern_layout="@ + bool_text(self.modern_layout));
        assert(string_views(out@) =~= seq![
            "level.dat="@ + self.path@,
            "LevelName="@ + self.level_name@,
            "Seed="@ + opt_int_text(opt_i64(self.seed)),
            "Spawn="@ + int_text(self.spawn@[0] as int) + ","@ + int_text(self.spawn@[1] as int)
                + ","@ + int_text(self.spawn@[2] as int),
            "GameType="@ + opt_int_text(opt_i32(self.game_type)),
            "DataVersion="@ + opt_int_text(opt_i32(self.data_version)),
            "Version.Name="@ + opt_text(opt_string(self.version_name)),
            "LastPlayed="@ + opt_int_text(opt_i64(self.last_played)),
            "generator="@ + opt_text(opt_string(self.generator)),
            "modern_layout="@ + bool_text(self.modern_layout),
        ]);
        out
    }
}

/// The fields of a `level.dat`'s `Data` compound a summary reads, each
/// absent when missing or of another type.
#[derive(Clone, Debug)]
pub struct LevelDatFields {
    pub level_name: Option<String>,
    pub spawn_x: Option<i64>,
    pub spawn_y: Option<i64>,
    pub spawn_z: Option<i64>,
    pub data_version: Option<i64>,
    pub world_gen_seed: Option<i64>,
    pub random_seed: Option<i64>,
    pub game_type: Option<i64>,
    pub version_name: Option<String>,
    pub last_played: Option<i64>,
    pub generator: Option<String>,
}

/// The seed a `level.dat` itself records: the world generation settings'
/// first, else `RandomSeed`. When neither is there, the modern seed file
/// is read.
pub open spec fn own_seed(f: LevelDatFields) -> Option<i64> {
    match f.world_gen_seed {
        Some(s) => Some(s),
        None => f.random_seed,
    }
}

pub fn level_seed(f: &LevelDatFields) -> (r: Option<i64>)
    ensures
        r == own_seed(*f),
{
    match f.world_gen_seed {
        Some(s) => Some(s),
        None => f.random_seed,
    }
}

pub open spec fn opt_i32_of(v: Option<i64>) -> Option<i32> {
    match v {
        Some(n) => Some(n as i32),
        None => None,
    }
}

pub open spec fn or_default(v: Option<i64>, d: i64) -> i64 {
    match v {
        Some(n) => n,
        None => d,
    }
}

/// The summary of a `level.dat`: the name (`world` when missing), spawn
/// (0, 64, 0 by default), numbers cut to `i32` as stored, the seed (from
/// `sidecar_seed` when the file records none), and whether the world uses
/// the modern layout (a data version from the modern range, or the seed
/// file present).
pub fn level_info_from(
    path: String,
    f: LevelDatFields,
    sidecar_seed: Option<i64>,
    sidecar_exists: bool,
) -> (r: LevelInfo)
    ensures
        r.path@ == path@,
        r.level_name@ == match f.level_name {
            Some(n) => n@,
            None => "world"@,
        },
        r.spawn@ == seq![
            or_default(f.spawn_x, 0) as i32,
            or_default(f.spawn_y, 64) as i32,
            or_default(f.spawn_z, 0) as i32,
        ],
        r.data_version == opt_i32_of(f.data_version),
        r.seed == match own_seed(f) {
            Some(s) => Some(s),
            None => sidecar_seed,
        },
        r.game_type == opt_i32_of(f.game_type),
        r.version_name == f.version_name,
        r.last_played == f.last_played,
        r.generator == f.generator,
        r.modern_layout == ((match opt_i32_of(f.data_version) {
            Some(v) => v as int,
            None => 0,
        }) >= MODERN_LEVEL_DAT_MIN || sidecar_exists),
{
    let seed = match level_seed(&f) {
        Some(s) => Some(s),
        None => sidecar_seed,
    };
    let data_version: Option<i32> = match f.data_version {
        Some(v) => Some(v as i32),
        None => None,
    };
    let dv0: i32 = match data_version {
        Some(v) => v,
        None => 0,
    };
    let sx: i64 = match f.spawn_x {
        Some(v) => v,
        None => 0,
    };
    let sy: i64 = match f.spawn_y {
        Some(v) => v,
        None => 64,
    };
    let sz: i64 = match f.spawn_z {
        Some(v) => v,
        None => 0,
    };
    let spawn: [i32; 3] = [sx as i32, sy as i32, sz as i32];
    assert(spawn@ =~= seq![sx as i32, sy as i32, sz as i32]);
    LevelInfo {
        path,
        level_name: match f.level_name {
            Some(n) => n,
            None => string_from("world"),
        },
        seed,
        spawn,
        game_type: match f.game_type {
            Some(v) => Some(v as i32),
            None => None,
        },
        data_version,
        version_name: f.version_name,
        last_played: f.last_played,
        generator: f.generator,
        modern_layout: dv0 >= MODERN_LEVEL_DAT_MIN || sidecar_exists,
    }
}

pub open spec fn opt_text_view(o: Option<String>) -> Option<Seq<char>> {
    match o {
        Some(s) => Some(s@),
        None => None,
    }
}

/// The text of a tag that may be missing.
pub open spec fn text_at(v: Option<NbtView>) -> Option<Seq<char>> {
    match v {
        Some(t) => text_of(t),
        None => None,
    }
}

/// The integer of a tag that may be missing.
pub open spec fn int_at(v: Option<NbtView>) -> Option<i64> {
    match v {
        Some(t) => int_of(t),
        None => None,
    }
}

/// The fields read from a `Data` compound `d`.
pub open spec fn fields_of(f: LevelDatFields, d: NbtView) -> bool {
    let data = Some(d);
    &&& opt_text_view(f.level_name) == text_at(child(data, "LevelName"@))
    &&& f.spawn_x == int_at(child(data, "SpawnX"@))
    &&& f.spawn_y == int_at(child(data, "SpawnY"@))
    &&& f.spawn_z == int_at(child(data, "SpawnZ"@))
    &&& f.data_version == int_at(child(data, "DataVersion"@))
    &&& f.world_gen_seed == int_at(child(child(data, "WorldGenSettings"@), "seed"@))
    &&& f.random_seed == int_at(child(data, "RandomSeed"@))
    &&& f.game_type == int_at(child(data, "GameType"@))
    &&& opt_text_view(f.version_name) == text_at(child(child(data, "Version"@), "Name"@))
    &&& f.last_played == int_at(child(data, "LastPlayed"@))
    &&& opt_text_view(f.generator) == text_at(
        child(
            child(child(child(child(data, "WorldGenSettings"@), "dimensions"@), "minecraft:overworld"@), "generator"@),
            "type"@,
        ),
    )
}

/// The summary fields of a `level.dat` tree, read from its `Data`
/// compound.
pub fn level_dat_fields_of(root: &Nbt) -> (r: Result<LevelDatFields, String>)
    ensures
        match child(Some(root@), "Data"@) {
            Some(d) => r is Ok && fields_of(r->Ok_0, d),
            None => r is Err && r->Err_0@ == "level.dat missing Data"@,
        },
{
    let data = child_of(Some(root), "Data");
    match data {
        None => Err(string_from("level.dat missing Data")),
        Some(d) => {
            let wgs = child_of(data, "WorldGenSettings");
            let dims = child_of(wgs, "dimensions");
            let ow = child_of(dims, "minecraft:overworld");
            let generator = child_of(ow, "generator");
            let version = child_of(data, "Version");
            Ok(
                LevelDatFields {
                    level_name: text_value(child_of(data, "LevelName")),
                    spawn_x: int_value(child_of(data, "SpawnX")),
                    spawn_y: int_value(child_of(data, "SpawnY")),
                    spawn_z: int_value(child_of(data, "SpawnZ")),
                    data_version: int_value(child_of(data, "DataVersion")),
                    world_gen_seed: int_value(child_of(wgs, "seed")),
                    random_seed: int_value(child_of(data, "RandomSeed")),
                    game_type: int_value(child_of(data, "GameType")),
                    version_name: text_value(child_of(version, "Name")),
                    last_played: int_value(child_of(data, "LastPlayed")),
                    generator: text_value(child_of(generator, "type")),
                },
            )
        },
    }
}

/// The seed the modern seed file records: the `seed` under its `data`
/// compound when there is one, else the root's `seed`.
pub fn sidecar_seed_of(root: &Nbt) -> (r: Option<i64>)
    ensures
        r == match child(child(Some(root@), "data"@), "seed"@) {
            Some(v) => int_of(v),
            None => int_at(child(Some(root@), "seed"@)),
        },
{
    let inner = child_of(child_of(Some(root), "data"), "seed");
    match inner {
        Some(_) => int_value(inner),
        None => int_value(child_of(Some(root), "seed")),
    }
}

} // verus!
