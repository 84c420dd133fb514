//! Sessions over a world: their metadata, status report, and the soft
//! region leases that let several sessions see each other's claims.

use vstd::prelude::*;
use crate::history::History;
use crate::level::{GeneratorKind, RegionFormat};
use crate::mc_version::ResolvedVersion;
use crate::text::{
    append, append_str, bool_text, chars_of, ends_with, ends_with_str, eq_chars, eq_str, int_text,
    nat_text, push_bool, push_int, push_nat, string_from, string_of,
};

verus! {

pub const SESSION_ROOT_NAME: &'static str = ".mcaedit";

/// Stored description of a session.
#[derive(Clone, Debug)]
pub struct SessionMeta {
    pub id: String,
    pub source_world: String,
    /// Dimension folder relative to source_world, usually "."
    pub dim: String,
    pub created_at: String,
    pub dirty: bool,
    pub next_action_hint: u64,
    /// Collaboration label (agent / user)
    pub label: Option<String>,
    /// Preferred DataVersion for newly created empty chunks.
    pub data_version: Option<i32>,
}

/// Options for creating a session when bootstrapping an empty world.
#[derive(Clone, Debug, Default)]
pub struct CreateSessionOpts {
    pub bootstrap: bool,
    pub force_level: bool,
    pub level_name: Option<String>,
    pub seed: Option<i64>,
    pub version: Option<ResolvedVersion>,
    pub generator: Option<GeneratorKind>,
    pub region_format: Option<RegionFormat>,
    pub data_version: Option<i32>,
}

/// One line of a session listing.
#[derive(Clone, Debug)]
pub struct SessionSummary {
    pub id: String,
    pub label: Option<String>,
    pub world: String,
    pub dim: String,
    pub dirty: bool,
    pub history: String,
    pub path: String,
}

/// An open session: its directory, metadata and history cursor.
#[derive(Debug)]
pub struct Session {
    pub root: String,
    pub meta: SessionMeta,
    pub history: History,
    /// One-shot note from bootstrapping (not persisted).
    pub bootstrap_note: Option<String>,
}

/// Owner of a world's commit lock.
#[derive(Clone, Debug)]
pub struct WorldLock {
    pub session: String,
    pub label: Option<String>,
    pub pid: u32,
    pub since: String,
}

pub open spec fn string_views(v: Seq<String>) -> Seq<Seq<char>> {
    v.map_values(|s: String| s@)
}

fn keyed(key: &str, value: &[char]) -> (r: String)
    ensures
        r@ == key@ + value@,
{
    let mut m = chars_of(key);
    append(&mut m, value);
    string_of(&m)
}

/// The status report of a session.
pub open spec fn status_spec(
    id: Seq<char>,
    world: Seq<char>,
    dim: Seq<char>,
    dirty: bool,
    position: nat,
    size: nat,
    root: Seq<char>,
    label: Option<Seq<char>>,
) -> Seq<Seq<char>> {
    let base = seq![
        "session="@ + id,
        "world="@ + world,
        "dim="@ + dim,
        "dirty="@ + bool_text(dirty),
        "history="@ + nat_text(position) + "/"@ + nat_text(size),
        "path="@ + root,
    ];
    match label {
        Some(l) => base.insert(1, "label="@ + l),
        None => base,
    }
}

impl Session {
    /// `key=value` lines describing the session, with the label second when
    /// there is one.
    pub fn status_lines(&self) -> (r: Vec<String>)
        ensures
            string_views(r@) == status_spec(
                self.meta.id@,
                self.meta.source_world@,
                self.meta.dim@,
                self.meta.dirty,
                self.history@.position,
                self.history@.size,
                self.root@,
                match self.meta.label {
                    Some(l) => Some(l@),
                    None => None,
                },
            ),
    {
        let mut lines: Vec<String> = Vec::new();
        lines.push(keyed("session=", &chars_of(self.meta.id.as_str())));
        lines.push(keyed("world=", &chars_of(self.meta.source_world.as_str())));
        lines.push(keyed("dim=", &chars_of(self.meta.dim.as_str())));
        let mut d: Vec<char> = Vec::new();
        push_bool(&mut d, self.meta.dirty);
        lines.push(keyed("dirty=", &d));
        let mut h: Vec<char> = Vec::new();
        push_nat(&mut h, self.history.position() as u64);
        h.push('/');
        push_nat(&mut h, self.history.size() as u64);
        lines.push(keyed("history=", &h));
        lines.push(keyed("path=", &chars_of(self.root.as_str())));
        proof {
            reveal_strlit("/");
            assert(h@ =~= nat_text(self.history@.position) + "/"@ + nat_text(self.history@.size));
            assert(string_views(lines@)[4] =~= "history="@ + nat_text(self.history@.position) + "/"@
                + nat_text(self.history@.size));
            assert(string_views(lines@)[3] =~= "dirty="@ + bool_text(self.meta.dirty));
        }
        let ghost base = string_views(lines@);
        match &self.meta.label {
            Some(label) => {
                let l = keyed("label=", &chars_of(label.as_str()));
                lines.insert(1, l);
                assert(string_views(lines@) =~= base.insert(1, "label="@ + label@));
            },
            None => {},
        }
        lines
    }
}

/// Soft AABB claim for multi-agent coordination (not a hard lock).
#[derive(Clone, Debug)]
pub struct RegionLease {
    pub session: String,
    pub label: Option<String>,
    pub from: [i32; 3],
    pub to: [i32; 3],
    pub updated_at: String,
}

pub open spec fn min32(a: i32, b: i32) -> i32 {
    if a < b {
        a
    } else {
        b
    }
}

pub open spec fn max32(a: i32, b: i32) -> i32 {
    if a > b {
        a
    } else {
        b
    }
}

/// The lease's box as (min x, min y, min z, max x, max y, max z).
pub open spec fn lease_box(from: Seq<i32>, to: Seq<i32>) -> (i32, i32, i32, i32, i32, i32) {
    (
        min32(from[0], to[0]),
        min32(from[1], to[1]),
        min32(from[2], to[2]),
        max32(from[0], to[0]),
        max32(from[1], to[1]),
        max32(from[2], to[2]),
    )
}

/// Whether two boxes share at least one block.
pub open spec fn boxes_overlap(a: (i32, i32, i32, i32, i32, i32), b: (i32, i32, i32, i32, i32, i32)) -> bool {
    a.0 <= b.3 && a.3 >= b.0 && a.1 <= b.4 && a.4 >= b.1 && a.2 <= b.5 && a.5 >= b.2
}

impl RegionLease {
    /// The claimed box, corners sorted per axis.
    pub fn aabb(&self) -> (r: (i32, i32, i32, i32, i32, i32))
        ensures
            r == lease_box(self.from@, self.to@),
    {
        let f = self.from;
        let t = self.to;
        (
            if f[0] < t[0] {
                f[0]
            } else {
                t[0]
            },
            if f[1] < t[1] {
                f[1]
            } else {
                t[1]
            },
            if f[2] < t[2] {
                f[2]
            } else {
                t[2]
            },
            if f[0] > t[0] {
                f[0]
            } else {
                t[0]
            },
            if f[1] > t[1] {
                f[1]
            } else {
                t[1]
            },
            if f[2] > t[2] {
                f[2]
            } else {
                t[2]
            },
        )
    }

    /// Whether the two claimed boxes intersect.
    pub fn overlaps(&self, other: &RegionLease) -> (r: bool)
        ensures
            r == boxes_overlap(lease_box(self.from@, self.to@), lease_box(other.from@, other.to@)),
    {
        let (ax0, ay0, az0, ax1, ay1, az1) = self.aabb();
        let (bx0, by0, bz0, bx1, by1, bz1) = other.aabb();
        ax0 <= bx1 && ax1 >= bx0 && ay0 <= by1 && ay1 >= by0 && az0 <= bz1 && az1 >= bz0
    }
}

/// Overlap is symmetric: if my claim overlaps yours, yours overlaps mine.
pub proof fn law_overlap_symmetric(a: (i32, i32, i32, i32, i32, i32), b: (i32, i32, i32, i32, i32, i32))
    ensures
        boxes_overlap(a, b) == boxes_overlap(b, a),
{
}

/// Every lease box overlaps itself.
pub proof fn law_overlap_reflexive(from: Seq<i32>, to: Seq<i32>)
    requires
        from.len() == 3,
        to.len() == 3,
    ensures
        boxes_overlap(lease_box(from, to), lease_box(from, to)),
{
}

/// The warning for another session's overlapping lease.
pub open spec fn conflict_warning(other: (Seq<char>, Option<Seq<char>>, Seq<i32>, Seq<i32>)) -> Seq<char> {
    "lease conflict: session="@ + other.0 + " label="@ + (match other.1 {
        Some(l) => l,
        None => "-"@,
    }) + " aabb=("@ + int_text(other.2[0] as int) + ","@ + int_text(other.2[1] as int) + ","@
        + int_text(other.2[2] as int) + ")..("@ + int_text(other.3[0] as int) + ","@ + int_text(
        other.3[1] as int,
    ) + ","@ + int_text(other.3[2] as int) + ") overlaps ours"@
}

pub open spec fn lease_fields(l: RegionLease) -> (Seq<char>, Option<Seq<char>>, Seq<i32>, Seq<i32>) {
    (
        l.session@,
        match l.label {
            Some(s) => Some(s@),
            None => None,
        },
        l.from@,
        l.to@,
    )
}

/// Warnings for the first `n` leases: those of other sessions whose box
/// overlaps `mine`.
pub open spec fn conflicts_spec(mine: RegionLease, leases: Seq<RegionLease>, n: nat) -> Seq<Seq<char>>
    decreases n,
{
    if n == 0 {
        seq![]
    } else {
        let rest = conflicts_spec(mine, leases, (n - 1) as nat);
        let o = leases[n - 1];
        if o.session@ != mine.session@ && boxes_overlap(
            lease_box(mine.from@, mine.to@),
            lease_box(o.from@, o.to@),
        ) {
            rest.push(conflict_warning(lease_fields(o)))
        } else {
            rest
        }
    }
}

fn push_triple(m: &mut Vec<char>, p: &[i32; 3])
    ensures
        final(m)@ == old(m)@ + int_text(p@[0] as int) + ","@ + int_text(p@[1] as int) + ","@
            + int_text(p@[2] as int),
{
    push_int(m, p[0] as i64);
    m.push(',');
    push_int(m, p[1] as i64);
    m.push(',');
    push_int(m, p[2] as i64);
    proof {
        reveal_strlit(",");
    }
    assert(final(m)@ =~= old(m)@ + int_text(p@[0] as int) + ","@ + int_text(p@[1] as int) + ","@
        + int_text(p@[2] as int));
}

/// Warnings about other sessions' leases that overlap `mine`, in the order
/// the leases are given.
pub fn list_lease_conflicts(mine: &RegionLease, leases: &[RegionLease]) -> (r: Vec<String>)
    ensures
        string_views(r@) == conflicts_spec(*mine, leases@, leases@.len()),
{
    let mut warnings: Vec<String> = Vec::new();
    let mine_id = chars_of(mine.session.as_str());
    let mut i: usize = 0;
    while i < leases.len()
        invariant
            i <= leases@.len(),
            mine_id@ == mine.session@,
            string_views(warnings@) == conflicts_spec(*mine, leases@, i as nat),
        decreases leases.len() - i,
    {
        let other = &leases[i];
        let oid = chars_of(other.session.as_str());
        if !eq_chars(&oid, &mine_id) && mine.overlaps(other) {
            let mut m = chars_of("lease conflict: session=");
            append(&mut m, &oid);
            append_str(&mut m, " label=");
            match &other.label {
                Some(l) => append_str(&mut m, l.as_str()),
                None => append_str(&mut m, "-"),
            }
            append_str(&mut m, " aabb=(");
            push_triple(&mut m, &other.from);
            append_str(&mut m, ")..(");
            push_triple(&mut m, &other.to);
            append_str(&mut m, ") overlaps ours");
            let ghost before = string_views(warnings@);
            warnings.push(string_of(&m));
            proof {
                assert(m@ =~= conflict_warning(lease_fields(*other)));
                assert(string_views(warnings@) =~= before.push(conflict_warning(lease_fields(*other))));
            }
        }
        i += 1;
    }
    warnings
}

/// Where a dimension keeps its region files, relative to the world
/// directory: the vanilla folders for the overworld, the nether and the end;
/// for another name its own `region` folder when that exists, else the
/// world's when that exists, else its own.
pub open spec fn dim_region_rel(dim: Seq<char>, own_exists: bool, world_exists: bool) -> Seq<char> {
    if dim == "."@ || dim == ""@ || dim == "overworld"@ {
        "region"@
    } else if dim == "nether"@ || dim == "the_nether"@ {
        "DIM-1/region"@
    } else if dim == "end"@ || dim == "the_end"@ {
        "DIM1/region"@
    } else if own_exists || !world_exists {
        dim + "/region"@
    } else {
        "region"@
    }
}

/// The region directory of a dimension, relative to the world directory.
/// `dim_region_exists` says whether `<world>/<dim>/region` exists and
/// `world_region_exists` whether `<world>/region` does.
pub fn dim_region_dir(dim: &str, dim_region_exists: bool, world_region_exists: bool) -> (r: String)
    ensures
        r@ == dim_region_rel(dim@, dim_region_exists, world_region_exists),
{
    let d = chars_of(dim);
    if eq_str(&d, ".") || eq_str(&d, "") || eq_str(&d, "overworld") {
        string_from("region")
    } else if eq_str(&d, "nether") || eq_str(&d, "the_nether") {
        string_from("DIM-1/region")
    } else if eq_str(&d, "end") || eq_str(&d, "the_end") {
        string_from("DIM1/region")
    } else if dim_region_exists || !world_region_exists {
        let mut m = d;
        append_str(&mut m, "/region");
        string_of(&m)
    } else {
        string_from("region")
    }
}

/// The entities directory beside a dimension's region directory, relative
/// to the world directory.
pub open spec fn dim_entities_rel(dim: Seq<char>, own_exists: bool, world_exists: bool) -> Seq<char> {
    let r = dim_region_rel(dim, own_exists, world_exists);
    r.take(r.len() - 6) + "entities"@
}

/// The entities directory of a dimension, relative to the world directory
/// (the sibling of its region directory).
pub fn dim_entities_dir(dim: &str, dim_region_exists: bool, world_region_exists: bool) -> (r: String)
    ensures
        r@ == dim_entities_rel(dim@, dim_region_exists, world_region_exists),
{
    let region = chars_of(dim_region_dir(dim, dim_region_exists, world_region_exists).as_str());
    proof {
        reveal_strlit("region");
        reveal_strlit("/region");
        reveal_strlit("DIM-1/region");
        reveal_strlit("DIM1/region");
    }
    let ghost rel = dim_region_rel(dim@, dim_region_exists, world_region_exists);
    assert(rel.len() >= 6);
    let mut m: Vec<char> = Vec::new();
    let mut i: usize = 0;
    while i < region.len() - 6
        invariant
            region@ == rel,
            rel.len() >= 6,
            i <= region@.len() - 6,
            m@ == rel.take(i as int),
        decreases region.len() - 6 - i,
    {
        m.push(region[i]);
        assert(m@ =~= rel.take(i + 1));
        i += 1;
    }
    append_str(&mut m, "entities");
    string_of(&m)
}

/// What creating a session does to its source world before copying from it.
#[derive(Clone, Copy, Debug, PartialEq, Eq, Structural)]
pub enum BootstrapStep {
    /// The world directory is missing and may not be created.
    MissingWorld,
    /// Keep the existing `level.dat`; only make sure the folders exist.
    EnsureDirs,
    /// Write a new world skeleton (`force`: overwrite a `level.dat`).
    CreateWorld(bool),
    /// Use the world as it is.
    Keep,
}

/// The bootstrap decision: a missing world needs `--bootstrap`; a world that
/// asks for a skeleton (by the flag or by missing pieces) keeps an existing
/// `level.dat` unless forced, and otherwise gets one written when its region
/// folder is missing or the flag was given.
pub open spec fn bootstrap_step_of(
    world_exists: bool,
    bootstrap: bool,
    needs_bootstrap: bool,
    level_exists: bool,
    force_level: bool,
    region_exists: bool,
) -> BootstrapStep {
    if !world_exists && !bootstrap {
        BootstrapStep::MissingWorld
    } else if !(bootstrap || needs_bootstrap) {
        BootstrapStep::Keep
    } else if level_exists && !force_level {
        BootstrapStep::EnsureDirs
    } else if !region_exists || bootstrap {
        BootstrapStep::CreateWorld(force_level || !level_exists)
    } else {
        BootstrapStep::Keep
    }
}

pub fn bootstrap_step(
    world_exists: bool,
    bootstrap: bool,
    needs_bootstrap: bool,
    level_exists: bool,
    force_level: bool,
    region_exists: bool,
) -> (r: BootstrapStep)
    ensures
        r == bootstrap_step_of(
            world_exists,
            bootstrap,
            needs_bootstrap,
            level_exists,
            force_level,
            region_exists,
        ),
{
    if !world_exists && !bootstrap {
        BootstrapStep::MissingWorld
    } else if !(bootstrap || needs_bootstrap) {
        BootstrapStep::Keep
    } else if level_exists && !force_level {
        BootstrapStep::EnsureDirs
    } else if !region_exists || bootstrap {
        BootstrapStep::CreateWorld(force_level || !level_exists)
    } else {
        BootstrapStep::Keep
    }
}

/// Refreshing a session's work copy refuses a dirty session unless forced.
pub fn sync_guard(dirty: bool, force: bool) -> (r: Result<(), String>)
    ensures
        r is Err <==> (dirty && !force),
        r matches Err(m) ==> m@
            == "session dirty; commit/discard or pass --force to overwrite work copy"@,
{
    if dirty && !force {
        return Err(string_from("session dirty; commit/discard or pass --force to overwrite work copy"));
    }
    Ok(())
}

/// What a work-copy refresh does with one file of the source folder.
#[derive(Clone, Copy, Debug, PartialEq, Eq, Structural)]
pub enum SyncFile {
    /// A `.linear` region: convert it to Anvil (when its bytes are Linear).
    ConvertLinear,
    /// A `.mca` region: copy it.
    Copy,
    /// Anything else: leave it.
    Skip,
}

pub open spec fn sync_file_of(name: Seq<char>) -> SyncFile {
    if ends_with(name, ".linear"@) {
        SyncFile::ConvertLinear
    } else if ends_with(name, ".mca"@) {
        SyncFile::Copy
    } else {
        SyncFile::Skip
    }
}

/// What a work-copy refresh does with the source file `name`.
pub fn sync_file_action(name: &str) -> (r: SyncFile)
    ensures
        r == sync_file_of(name@),
{
    let n = chars_of(name);
    if ends_with_str(&n, ".linear") {
        SyncFile::ConvertLinear
    } else if ends_with_str(&n, ".mca") {
        SyncFile::Copy
    } else {
        SyncFile::Skip
    }
}

/// The report line of one refreshed folder: how many files it copied, or
/// that its source is missing.
pub fn sync_report_line(label: &str, copied: Option<usize>) -> (r: String)
    ensures
        r@ == match copied {
            Some(n) => label@ + ": copied "@ + nat_text(n as nat) + " files"@,
            None => label@ + ": source missing, left empty"@,
        },
{
    let mut m = chars_of(label);
    match copied {
        Some(n) => {
            append_str(&mut m, ": copied ");
            push_nat(&mut m, n as u64);
            append_str(&mut m, " files");
        },
        None => append_str(&mut m, ": source missing, left empty"),
    }
    string_of(&m)
}

/// The hint that another session also changed region file `name`: given
/// when both copies have a modification time and the other's is newer.
pub open spec fn conflict_hint_spec(
    name: Seq<char>,
    other_id: Seq<char>,
    other_label: Option<Seq<char>>,
    ours: Option<u128>,
    theirs: Option<u128>,
) -> Option<Seq<char>> {
    match (ours, theirs) {
        (Some(o), Some(t)) => if t > o {
            Some(
                "region conflict hint: "@ + name + " also dirty in session="@ + other_id
                    + " label="@ + match other_label {
                    Some(l) => l,
                    None => "-"@,
                } + " (their mtime newer; sync/coordinate before commit)"@,
            )
        } else {
            None
        },
        _ => None,
    }
}

/// The conflict hint for region `name` against another session (times are
/// modification times in nanoseconds since the epoch, when known).
pub fn conflict_hint(
    name: &str,
    other_id: &str,
    other_label: Option<&str>,
    ours: Option<u128>,
    theirs: Option<u128>,
) -> (r: Option<String>)
    ensures
        match conflict_hint_spec(
            name@,
            other_id@,
            match other_label {
                Some(l) => Some(l@),
                None => None,
            },
            ours,
            theirs,
        ) {
            Some(t) => r is Some && r->Some_0@ == t,
            None => r is None,
        },
{
    match (ours, theirs) {
        (Some(o), Some(t)) => {
            if t > o {
                let mut m = chars_of("region conflict hint: ");
                append_str(&mut m, name);
                append_str(&mut m, " also dirty in session=");
                append_str(&mut m, other_id);
                append_str(&mut m, " label=");
                match other_label {
                    Some(l) => append_str(&mut m, l),
                    None => append_str(&mut m, "-"),
                }
                append_str(&mut m, " (their mtime newer; sync/coordinate before commit)");
                Some(string_of(&m))
            } else {
                None
            }
        },
        _ => None,
    }
}

/// Why creating a session stops, checked in this order: the world is
/// missing and may not be created; its region folder is still missing
/// after any bootstrap; a session with this id already exists.
pub open spec fn create_refusal_spec(
    world: Seq<char>,
    world_exists: bool,
    bootstrap: bool,
    region_dir: Seq<char>,
    region_exists: bool,
    id: Seq<char>,
    session_exists: bool,
) -> Option<Seq<char>> {
    if !world_exists && !bootstrap {
        Some("world path missing: "@ + world + " (pass --bootstrap to create)"@)
    } else if !region_exists {
        Some("region dir missing: "@ + region_dir + " (use session create --bootstrap)"@)
    } else if session_exists {
        Some("session `"@ + id + "` already exists"@)
    } else {
        None
    }
}

/// The refusal, if any, of a session creation (see `create_refusal_spec`);
/// `region_exists` is read after any bootstrap has run.
pub fn create_refusal(
    world: &str,
    world_exists: bool,
    bootstrap: bool,
    region_dir: &str,
    region_exists: bool,
    id: &str,
    session_exists: bool,
) -> (r: Option<String>)
    ensures
        match create_refusal_spec(
            world@,
            world_exists,
            bootstrap,
            region_dir@,
            region_exists,
            id@,
            session_exists,
        ) {
            Some(m) => r is Some && r->Some_0@ == m,
            None => r is None,
        },
{
    if !world_exists && !bootstrap {
        let mut m = chars_of("world path missing: ");
        append_str(&mut m, world);
        append_str(&mut m, " (pass --bootstrap to create)");
        return Some(string_of(&m));
    }
    if !region_exists {
        let mut m = chars_of("region dir missing: ");
        append_str(&mut m, region_dir);
        append_str(&mut m, " (use session create --bootstrap)");
        return Some(string_of(&m));
    }
    if session_exists {
        let mut m = chars_of("session `");
        append_str(&mut m, id);
        append_str(&mut m, "` already exists");
        return Some(string_of(&m));
    }
    None
}

} // verus!
