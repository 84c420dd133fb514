//! The edits a `level.dat` patch makes, decided from the options and from
//! what the file already holds.

use vstd::prelude::*;
use crate::level::LevelPatchOptions;
use crate::nbt::{
    child, compound_get, compound_put, compound_set, compound_set_inner, entries_view, entry_index,
    has_compound, is_compound_at, lemma_entries_view, put_inner, Nbt, NbtView,
};
use crate::text::{string_from};

verus! {

/// One change to a `level.dat`.
#[derive(Clone, Debug)]
pub enum LevelEdit {
    /// `Data.<key>` becomes a string.
    SetText(&'static str, String),
    /// `Data.<key>` becomes an integer.
    SetInt(&'static str, i64),
    /// The existing `Data.Version.Id`.
    SetVersionId(i64),
    /// The existing `Data.Version.Name`.
    SetVersionName(String),
    /// A new `Data.Version` with this id and name (not a snapshot, series
    /// `main`).
    AddVersion(i32, String),
    /// `Data.WorldGenSettings.seed`, where that compound exists.
    SetWorldGenSeed(i64),
    /// The seed in `data/minecraft/world_gen_settings.dat`.
    SetSidecarSeed(i64),
    /// `Data.LastPlayed`, in milliseconds.
    SetLastPlayed(i64),
}

/// An edit with its strings as character sequences.
pub enum LevelEditView {
    SetText(Seq<char>, Seq<char>),
    SetInt(Seq<char>, int),
    SetVersionId(int),
    SetVersionName(Seq<char>),
    AddVersion(int, Seq<char>),
    SetWorldGenSeed(int),
    SetSidecarSeed(int),
    SetLastPlayed(int),
}

pub open spec fn edit_view(e: LevelEdit) -> LevelEditView {
    match e {
        LevelEdit::SetText(k, v) => LevelEditView::SetText(k@, v@),
        LevelEdit::SetInt(k, v) => LevelEditView::SetInt(k@, v as int),
        LevelEdit::SetVersionId(v) => LevelEditView::SetVersionId(v as int),
        LevelEdit::SetVersionName(v) => LevelEditView::SetVersionName(v@),
        LevelEdit::AddVersion(i, n) => LevelEditView::AddVersion(i as int, n@),
        LevelEdit::SetWorldGenSeed(s) => LevelEditView::SetWorldGenSeed(s as int),
        LevelEdit::SetSidecarSeed(s) => LevelEditView::SetSidecarSeed(s as int),
        LevelEdit::SetLastPlayed(t) => LevelEditView::SetLastPlayed(t as int),
    }
}

pub open spec fn edits_view(es: Seq<LevelEdit>) -> Seq<LevelEditView> {
    es.map_values(|e: LevelEdit| edit_view(e))
}

pub open spec fn opt_str(o: Option<&str>) -> Option<Seq<char>> {
    match o {
        Some(s) => Some(s@),
        None => None,
    }
}

/// The edits of the name, game type and spawn fields.
pub open spec fn field_edits(level_name: Option<Seq<char>>, game_type: Option<i32>, spawn: Option<Seq<i32>>) -> Seq<LevelEditView> {
    (match level_name {
        Some(n) => seq![LevelEditView::SetText("LevelName"@, n)],
        None => seq![],
    }) + (match game_type {
        Some(g) => seq![LevelEditView::SetInt("GameType"@, g as int)],
        None => seq![],
    }) + match spawn {
        Some(p) => seq![
            LevelEditView::SetInt("SpawnX"@, p[0] as int),
            LevelEditView::SetInt("SpawnY"@, p[1] as int),
            LevelEditView::SetInt("SpawnZ"@, p[2] as int),
        ],
        None => seq![],
    }
}

/// The edits of the data version and version name: the existing `Version`
/// compound is updated, or one is added when a data version is given.
pub open spec fn version_edits(data_version: Option<i32>, version_name: Option<Seq<char>>, has_version: bool) -> Seq<LevelEditView> {
    match data_version {
        Some(dv) => seq![LevelEditView::SetInt("DataVersion"@, dv as int)] + if has_version {
            seq![LevelEditView::SetVersionId(dv as int)] + match version_name {
                Some(n) => seq![LevelEditView::SetVersionName(n)],
                None => seq![],
            }
        } else {
            seq![
                LevelEditView::AddVersion(
                    dv as int,
                    match version_name {
                        Some(n) => n,
                        None => "custom"@,
                    },
                ),
            ]
        },
        None => match version_name {
            Some(n) => if has_version {
                seq![LevelEditView::SetVersionName(n)]
            } else {
                seq![]
            },
            None => seq![],
        },
    }
}

/// The edits of the seed: `RandomSeed`, the world generation settings when
/// present, and the modern seed file when it exists.
pub open spec fn seed_edits(seed: Option<i64>, has_world_gen: bool, sidecar_exists: bool) -> Seq<LevelEditView> {
    match seed {
        Some(s) => seq![LevelEditView::SetInt("RandomSeed"@, s as int)] + (if has_world_gen {
            seq![LevelEditView::SetWorldGenSeed(s as int)]
        } else {
            seq![]
        }) + if sidecar_exists {
            seq![LevelEditView::SetSidecarSeed(s as int)]
        } else {
            seq![]
        },
        None => seq![],
    }
}

/// The edits of a patch, in the order they are made. `has_version` and
/// `has_world_gen` say whether `Data.Version` and `Data.WorldGenSettings`
/// are compounds, `sidecar_exists` whether the world has the modern seed
/// file, `now_millis` the time of the patch.
pub open spec fn patch_edits(
    level_name: Option<Seq<char>>,
    seed: Option<i64>,
    spawn: Option<Seq<i32>>,
    game_type: Option<i32>,
    data_version: Option<i32>,
    version_name: Option<Seq<char>>,
    touch_last_played: bool,
    has_version: bool,
    has_world_gen: bool,
    sidecar_exists: bool,
    now_millis: i64,
) -> Seq<LevelEditView> {
    field_edits(level_name, game_type, spawn) + version_edits(data_version, version_name, has_version)
        + seed_edits(seed, has_world_gen, sidecar_exists) + if touch_last_played {
        seq![LevelEditView::SetLastPlayed(now_millis as int)]
    } else {
        seq![]
    }
}

fn push_edit(out: &mut Vec<LevelEdit>, e: LevelEdit)
    ensures
        edits_view(final(out)@) == edits_view(old(out)@).push(edit_view(e)),
{
    let ghost before = edits_view(out@);
    out.push(e);
    assert(edits_view(out@) =~= before.push(edit_view(e)));
}

fn push_field_edits(out: &mut Vec<LevelEdit>, opts: &LevelPatchOptions)
    ensures
        edits_view(final(out)@) == edits_view(old(out)@) + field_edits(
            opt_str(opts.level_name),
            opts.game_type,
            match opts.spawn {
                Some(p) => Some(p@),
                None => None,
            },
        ),
{
    let ghost start = edits_view(out@);
    if let Some(n) = opts.level_name {
        push_edit(out, LevelEdit::SetText("LevelName", string_from(n)));
    }
    if let Some(g) = opts.game_type {
        push_edit(out, LevelEdit::SetInt("GameType", g as i64));
    }
    if let Some(p) = opts.spawn {
        push_edit(out, LevelEdit::SetInt("SpawnX", p[0] as i64));
        push_edit(out, LevelEdit::SetInt("SpawnY", p[1] as i64));
        push_edit(out, LevelEdit::SetInt("SpawnZ", p[2] as i64));
    }
    assert(edits_view(out@) =~= start + field_edits(
        opt_str(opts.level_name),
        opts.game_type,
        match opts.spawn {
            Some(p) => Some(p@),
            None => None,
        },
    ));
}

fn push_version_edits(out: &mut Vec<LevelEdit>, opts: &LevelPatchOptions, has_version: bool)
    ensures
        edits_view(final(out)@) == edits_view(old(out)@) + version_edits(
            opts.data_version,
            opt_str(opts.version_name),
            has_version,
        ),
{
    let ghost start = edits_view(out@);
    match opts.data_version {
        Some(dv) => {
            push_edit(out, LevelEdit::SetInt("DataVersion", dv as i64));
            if has_version {
                push_edit(out, LevelEdit::SetVersionId(dv as i64));
                if let Some(n) = opts.version_name {
                    push_edit(out, LevelEdit::SetVersionName(string_from(n)));
                }
            } else {
                let name = match opts.version_name {
                    Some(n) => string_from(n),
                    None => string_from("custom"),
                };
                push_edit(out, LevelEdit::AddVersion(dv, name));
            }
        },
        None => {
            if let Some(n) = opts.version_name {
                if has_version {
                    push_edit(out, LevelEdit::SetVersionName(string_from(n)));
                }
            }
        },
    }
    assert(edits_view(out@) =~= start + version_edits(
        opts.data_version,
        opt_str(opts.version_name),
        has_version,
    ));
}

fn push_seed_edits(out: &mut Vec<LevelEdit>, seed: Option<i64>, has_world_gen: bool, sidecar_exists: bool)
    ensures
        edits_view(final(out)@) == edits_view(old(out)@) + seed_edits(seed, has_world_gen, sidecar_exists),
{
    let ghost start = edits_view(out@);
    if let Some(s) = seed {
        push_edit(out, LevelEdit::SetInt("RandomSeed", s));
        if has_world_gen {
            push_edit(out, LevelEdit::SetWorldGenSeed(s));
        }
        if sidecar_exists {
            push_edit(out, LevelEdit::SetSidecarSeed(s));
        }
    }
    assert(edits_view(out@) =~= start + seed_edits(seed, has_world_gen, sidecar_exists));
}

/// The edits a `level.dat` patch makes.
pub fn level_patch_edits(
    opts: &LevelPatchOptions,
    has_version: bool,
    has_world_gen: bool,
    sidecar_exists: bool,
    now_millis: i64,
) -> (r: Vec<LevelEdit>)
    ensures
        edits_view(r@) == patch_edits(
            opt_str(opts.level_name),
            opts.seed,
            match opts.spawn {
                Some(p) => Some(p@),
                None => None,
            },
            opts.game_type,
            opts.data_version,
            opt_str(opts.version_name),
            opts.touch_last_played,
            has_version,
            has_world_gen,
            sidecar_exists,
            now_millis,
        ),
{
    let mut out: Vec<LevelEdit> = Vec::new();
    assert(edits_view(out@) =~= Seq::<LevelEditView>::empty());
    push_field_edits(&mut out, opts);
    push_version_edits(&mut out, opts, has_version);
    push_seed_edits(&mut out, opts.seed, has_world_gen, sidecar_exists);
    let ghost before = edits_view(out@);
    if opts.touch_last_played {
        push_edit(&mut out, LevelEdit::SetLastPlayed(now_millis));
    }
    assert(edits_view(out@) =~= before + if opts.touch_last_played {
        seq![LevelEditView::SetLastPlayed(now_millis as int)]
    } else {
        seq![]
    });
    out
}

/// A number as a tag: an int when it fits in 32 bits, else a long.
pub open spec fn number_view(v: int) -> NbtView {
    if i32::MIN <= v <= i32::MAX {
        NbtView::Int(v as i32)
    } else {
        NbtView::Long(v as i64)
    }
}

pub fn number(v: i64) -> (r: Nbt)
    ensures
        r@ == number_view(v as int),
{
    if i32::MIN as i64 <= v && v <= i32::MAX as i64 {
        Nbt::Int(v as i32)
    } else {
        Nbt::Long(v)
    }
}

/// The `Version` compound a patch adds: id, name, series `main`, not a
/// snapshot, with its keys in increasing order.
pub open spec fn new_version_view(id: int, name: Seq<char>) -> NbtView {
    NbtView::Compound(
        seq![
            ("Id"@, number_view(id)),
            ("Name"@, NbtView::Text(name)),
            ("Series"@, NbtView::Text("main"@)),
            ("Snapshot"@, NbtView::Byte(0)),
        ],
    )
}

/// What one edit does to the entries of `Data`. The seed file's edit
/// leaves `level.dat` alone.
pub open spec fn edit_data(d: Seq<(Seq<char>, NbtView)>, e: LevelEditView) -> Seq<(Seq<char>, NbtView)> {
    match e {
        LevelEditView::SetText(k, v) => compound_put(d, k, NbtView::Text(v)),
        LevelEditView::SetInt(k, v) => compound_put(d, k, number_view(v)),
        LevelEditView::SetVersionId(v) => put_inner(d, "Version"@, "Id"@, number_view(v)),
        LevelEditView::SetVersionName(n) => put_inner(d, "Version"@, "Name"@, NbtView::Text(n)),
        LevelEditView::AddVersion(id, n) => compound_put(d, "Version"@, new_version_view(id, n)),
        LevelEditView::SetWorldGenSeed(s) => put_inner(d, "WorldGenSettings"@, "seed"@, number_view(s)),
        LevelEditView::SetSidecarSeed(_) => d,
        LevelEditView::SetLastPlayed(t) => compound_put(d, "LastPlayed"@, number_view(t)),
    }
}

/// The entries of `Data` after the edits, in order.
pub open spec fn edit_data_all(d: Seq<(Seq<char>, NbtView)>, es: Seq<LevelEditView>) -> Seq<
    (Seq<char>, NbtView),
>
    decreases es.len(),
{
    if es.len() == 0 {
        d
    } else {
        edit_data(edit_data_all(d, es.drop_last()), es.last())
    }
}

fn new_version(id: i32, name: String) -> (r: Nbt)
    ensures
        r@ == new_version_view(id as int, name@),
{
    let mut es: Vec<(String, Nbt)> = Vec::new();
    es.push((string_from("Id"), number(id as i64)));
    es.push((string_from("Name"), Nbt::Text(name)));
    es.push((string_from("Series"), Nbt::Text(string_from("main"))));
    es.push((string_from("Snapshot"), Nbt::Byte(0)));
    proof {
        lemma_entries_view(es@);
        reveal_strlit("Id");
        reveal_strlit("Name");
        reveal_strlit("Series");
        reveal_strlit("Snapshot");
        reveal_strlit("main");
    }
    let r = Nbt::Compound(es);
    assert(entries_view(es@) =~= seq![
        ("Id"@, number_view(id as int)),
        ("Name"@, NbtView::Text(name@)),
        ("Series"@, NbtView::Text("main"@)),
        ("Snapshot"@, NbtView::Byte(0)),
    ]);
    r
}

/// Makes one edit on the entries of `Data`.
pub fn apply_level_edit(d: &mut Vec<(String, Nbt)>, e: &LevelEdit)
    ensures
        entries_view(final(d)@) == edit_data(entries_view(old(d)@), edit_view(*e)),
{
    match e {
        LevelEdit::SetText(k, v) => compound_set(d, k, Nbt::Text(v.clone())),
        LevelEdit::SetInt(k, v) => compound_set(d, k, number(*v)),
        LevelEdit::SetVersionId(v) => compound_set_inner(d, "Version", "Id", number(*v)),
        LevelEdit::SetVersionName(n) => compound_set_inner(d, "Version", "Name", Nbt::Text(n.clone())),
        LevelEdit::AddVersion(id, n) => compound_set(d, "Version", new_version(*id, n.clone())),
        LevelEdit::SetWorldGenSeed(s) => compound_set_inner(d, "WorldGenSettings", "seed", number(*s)),
        LevelEdit::SetSidecarSeed(_) => {},
        LevelEdit::SetLastPlayed(t) => compound_set(d, "LastPlayed", number(*t)),
    }
}

/// Makes the edits on the entries of `Data`, in order.
pub fn apply_level_edits(d: &mut Vec<(String, Nbt)>, edits: &Vec<LevelEdit>)
    ensures
        entries_view(final(d)@) == edit_data_all(entries_view(old(d)@), edits_view(edits@)),
{
    let ghost d0 = entries_view(d@);
    let mut i: usize = 0;
    assert(edits_view(edits@).take(0) =~= Seq::<LevelEditView>::empty());
    while i < edits.len()
        invariant
            i <= edits@.len(),
            entries_view(d@) == edit_data_all(d0, edits_view(edits@).take(i as int)),
        decreases edits.len() - i,
    {
        apply_level_edit(d, &edits[i]);
        let ghost ev = edits_view(edits@);
        assert(ev.take(i + 1).drop_last() =~= ev.take(i as int));
        assert(ev.take(i + 1).last() == edit_view(edits@[i as int]));
        i += 1;
    }
    assert(edits_view(edits@).take(edits@.len() as int) =~= edits_view(edits@));
}

pub open spec fn lit_missing_data() -> Seq<char> {
    "level.dat missing Data"@
}

/// The edits a patch makes on a `Data` compound with entries `d`.
pub open spec fn edits_for(
    opts: LevelPatchOptions,
    d: Seq<(Seq<char>, NbtView)>,
    sidecar_exists: bool,
    now_millis: i64,
) -> Seq<LevelEditView> {
    patch_edits(
        opt_str(opts.level_name),
        opts.seed,
        match opts.spawn {
            Some(p) => Some(p@),
            None => None,
        },
        opts.game_type,
        opts.data_version,
        opt_str(opts.version_name),
        opts.touch_last_played,
        has_compound(d, "Version"@),
        has_compound(d, "WorldGenSettings"@),
        sidecar_exists,
        now_millis,
    )
}

/// What patching a `level.dat` tree gives: the root compound with its
/// `Data` compound edited, or the error when there is no such compound.
pub open spec fn patched_level(
    root: NbtView,
    opts: LevelPatchOptions,
    sidecar_exists: bool,
    now_millis: i64,
) -> Option<NbtView> {
    match root {
        NbtView::Compound(es) => match compound_get(es, "Data"@) {
            Some(NbtView::Compound(d)) => Some(
                NbtView::Compound(
                    compound_put(
                        es,
                        "Data"@,
                        NbtView::Compound(edit_data_all(d, edits_for(opts, d, sidecar_exists, now_millis))),
                    ),
                ),
            ),
            _ => None,
        },
        _ => None,
    }
}

/// Patches the fields that `opts` names in a `level.dat` tree; every other
/// tag is kept. `sidecar_exists` says whether the world has the modern seed
/// file, `now_millis` is the time written as `LastPlayed`.
pub fn patch_level_root(root: Nbt, opts: &LevelPatchOptions, sidecar_exists: bool, now_millis: i64) -> (r: Result<
    Nbt,
    String,
>)
    ensures
        match patched_level(root@, *opts, sidecar_exists, now_millis) {
            Some(v) => r is Ok && r->Ok_0@ == v,
            None => r is Err && r->Err_0@ == lit_missing_data(),
        },
{
    match root {
        Nbt::Compound(mut es) => {
            proof {
                lemma_entries_view(es@);
            }
            let ghost ev = entries_view(es@);
            match entry_index(&es, "Data") {
                None => Err(string_from("level.dat missing Data")),
                Some(j) => {
                    let ghost old_es = es@;
                    let (k, cur) = es.remove(j);
                    match cur {
                        Nbt::Compound(mut d) => {
                            proof {
                                lemma_entries_view(d@);
                            }
                            let ghost dv = entries_view(d@);
                            assert(ev[j as int].1 == NbtView::Compound(dv));
                            let hv = is_compound_at(&d, "Version");
                            let hw = is_compound_at(&d, "WorldGenSettings");
                            let edits = level_patch_edits(opts, hv, hw, sidecar_exists, now_millis);
                            apply_level_edits(&mut d, &edits);
                            let ghost nd = NbtView::Compound(entries_view(d@));
                            es.insert(j, (string_from("Data"), Nbt::Compound(d)));
                            proof {
                                lemma_entries_view(es@);
                            }
                            assert(entries_view(es@) =~= ev.update(j as int, ("Data"@, nd)));
                            Ok(Nbt::Compound(es))
                        },
                        _ => {
                            assert(!(ev[j as int].1 is Compound));
                            Err(string_from("level.dat missing Data"))
                        },
                    }
                },
            }
        },
        _ => Err(string_from("level.dat missing Data")),
    }
}

/// What setting the seed in the modern seed file does: the seed goes into
/// its `data` compound, else onto the root compound; any other tree is
/// left as it is.
pub open spec fn sidecar_with_seed(root: NbtView, seed: i64) -> NbtView {
    match root {
        NbtView::Compound(es) => if has_compound(es, "data"@) {
            NbtView::Compound(put_inner(es, "data"@, "seed"@, number_view(seed as int)))
        } else {
            NbtView::Compound(compound_put(es, "seed"@, number_view(seed as int)))
        },
        _ => root,
    }
}

/// Writes `seed` into the tree of the modern seed file.
pub fn patch_sidecar_seed(root: Nbt, seed: i64) -> (r: Nbt)
    ensures
        r@ == sidecar_with_seed(root@, seed),
{
    match root {
        Nbt::Compound(mut es) => {
            if is_compound_at(&es, "data") {
                compound_set_inner(&mut es, "data", "seed", number(seed));
            } else {
                compound_set(&mut es, "seed", number(seed));
            }
            Nbt::Compound(es)
        },
        other => other,
    }
}

/// The `Data` entry an edit writes (`None` for the seed file's edit).
pub open spec fn edit_key(e: LevelEditView) -> Option<Seq<char>> {
    match e {
        LevelEditView::SetText(k, _) => Some(k),
        LevelEditView::SetInt(k, _) => Some(k),
        LevelEditView::SetVersionId(_) => Some("Version"@),
        LevelEditView::SetVersionName(_) => Some("Version"@),
        LevelEditView::AddVersion(_, _) => Some("Version"@),
        LevelEditView::SetWorldGenSeed(_) => Some("WorldGenSettings"@),
        LevelEditView::SetSidecarSeed(_) => None,
        LevelEditView::SetLastPlayed(_) => Some("LastPlayed"@),
    }
}

proof fn lemma_edit_keeps(d: Seq<(Seq<char>, NbtView)>, e: LevelEditView, k: Seq<char>)
    requires
        edit_key(e) != Some(k),
    ensures
        compound_get(edit_data(d, e), k) == compound_get(d, k),
{
    match e {
        LevelEditView::SetText(k2, v) => crate::nbt::lemma_put_get_other(d, k2, NbtView::Text(v), k),
        LevelEditView::SetInt(k2, v) => crate::nbt::lemma_put_get_other(d, k2, number_view(v), k),
        LevelEditView::SetVersionId(v) => {
            if let Some(NbtView::Compound(c)) = compound_get(d, "Version"@) {
                crate::nbt::lemma_put_get_other(
                    d,
                    "Version"@,
                    NbtView::Compound(compound_put(c, "Id"@, number_view(v))),
                    k,
                );
            }
        },
        LevelEditView::SetVersionName(n) => {
            if let Some(NbtView::Compound(c)) = compound_get(d, "Version"@) {
                crate::nbt::lemma_put_get_other(
                    d,
                    "Version"@,
                    NbtView::Compound(compound_put(c, "Name"@, NbtView::Text(n))),
                    k,
                );
            }
        },
        LevelEditView::AddVersion(id, n) => crate::nbt::lemma_put_get_other(d, "Version"@, new_version_view(id, n), k),
        LevelEditView::SetWorldGenSeed(sd) => {
            if let Some(NbtView::Compound(c)) = compound_get(d, "WorldGenSettings"@) {
                crate::nbt::lemma_put_get_other(
                    d,
                    "WorldGenSettings"@,
                    NbtView::Compound(compound_put(c, "seed"@, number_view(sd))),
                    k,
                );
            }
        },
        LevelEditView::SetSidecarSeed(_) => {},
        LevelEditView::SetLastPlayed(t) => crate::nbt::lemma_put_get_other(d, "LastPlayed"@, number_view(t), k),
    }
}

proof fn lemma_edits_keep(d: Seq<(Seq<char>, NbtView)>, es: Seq<LevelEditView>, k: Seq<char>)
    requires
        forall|i: int| 0 <= i < es.len() ==> edit_key(#[trigger] es[i]) != Some(k),
    ensures
        compound_get(edit_data_all(d, es), k) == compound_get(d, k),
    decreases es.len(),
{
    if es.len() > 0 {
        lemma_edits_keep(d, es.drop_last(), k);
        lemma_edit_keeps(edit_data_all(d, es.drop_last()), es.last(), k);
    }
}

proof fn lemma_edit_data_one(d: Seq<(Seq<char>, NbtView)>, e: LevelEditView)
    ensures
        edit_data_all(d, seq![e]) == edit_data(d, e),
{
    assert(seq![e].drop_last() =~= Seq::<LevelEditView>::empty());
    assert(edit_data_all(d, Seq::<LevelEditView>::empty()) == d);
}

proof fn lemma_edits_split(d: Seq<(Seq<char>, NbtView)>, a: Seq<LevelEditView>, b: Seq<LevelEditView>)
    ensures
        edit_data_all(d, a + b) == edit_data_all(edit_data_all(d, a), b),
    decreases b.len(),
{
    if b.len() == 0 {
        assert(a + b =~= a);
    } else {
        assert((a + b).drop_last() =~= a + b.drop_last());
        lemma_edits_split(d, a, b.drop_last());
    }
}

/// The `Data` entries a patch starts from.
pub open spec fn data_entries(root: NbtView) -> Seq<(Seq<char>, NbtView)> {
    match root {
        NbtView::Compound(es) => match compound_get(es, "Data"@) {
            Some(NbtView::Compound(d)) => d,
            _ => seq![],
        },
        _ => seq![],
    }
}

proof fn lemma_patched_data(root: NbtView, opts: LevelPatchOptions, sidecar_exists: bool, now_millis: i64)
    requires
        patched_level(root, opts, sidecar_exists, now_millis) is Some,
    ensures
        child(Some(patched_level(root, opts, sidecar_exists, now_millis)->Some_0), "Data"@) == Some(
            NbtView::Compound(
                edit_data_all(
                    data_entries(root),
                    edits_for(opts, data_entries(root), sidecar_exists, now_millis),
                ),
            ),
        ),
{
    let es = match root {
        NbtView::Compound(es) => es,
        _ => seq![],
    };
    let d = data_entries(root);
    crate::nbt::lemma_put_get_same(
        es,
        "Data"@,
        NbtView::Compound(edit_data_all(d, edits_for(opts, d, sidecar_exists, now_millis))),
    );
}

proof fn lemma_field_keys(game_type: Option<i32>, spawn: Option<Seq<i32>>)
    ensures
        forall|i: int| 0 <= i < field_edits(None, game_type, spawn).len() ==> edit_key(
            #[trigger] field_edits(None, game_type, spawn)[i],
        ) == Some("GameType"@) || edit_key(field_edits(None, game_type, spawn)[i]) == Some("SpawnX"@)
            || edit_key(field_edits(None, game_type, spawn)[i]) == Some("SpawnY"@) || edit_key(
            field_edits(None, game_type, spawn)[i],
        ) == Some("SpawnZ"@),
{
}

proof fn lemma_version_keys(data_version: Option<i32>, version_name: Option<Seq<char>>, has_version: bool)
    ensures
        forall|i: int| 0 <= i < version_edits(data_version, version_name, has_version).len() ==> edit_key(
            #[trigger] version_edits(data_version, version_name, has_version)[i],
        ) == Some("DataVersion"@) || edit_key(version_edits(data_version, version_name, has_version)[i])
            == Some("Version"@),
{
}

proof fn lemma_seed_keys(seed: Option<i64>, has_world_gen: bool, sidecar_exists: bool)
    ensures
        forall|i: int| 0 <= i < seed_edits(seed, has_world_gen, sidecar_exists).len() ==> edit_key(
            #[trigger] seed_edits(seed, has_world_gen, sidecar_exists)[i],
        ) == Some("RandomSeed"@) || edit_key(seed_edits(seed, has_world_gen, sidecar_exists)[i]) == Some(
            "WorldGenSettings"@,
        ) || edit_key(seed_edits(seed, has_world_gen, sidecar_exists)[i]) is None,
{
}

proof fn lemma_keys_after_name(
    fe: Seq<LevelEditView>,
    ve: Seq<LevelEditView>,
    se: Seq<LevelEditView>,
    le: Seq<LevelEditView>,
)
    requires
        forall|i: int| 0 <= i < fe.len() ==> edit_key(#[trigger] fe[i]) == Some("GameType"@) || edit_key(fe[i])
            == Some("SpawnX"@) || edit_key(fe[i]) == Some("SpawnY"@) || edit_key(fe[i]) == Some("SpawnZ"@),
        forall|i: int| 0 <= i < ve.len() ==> edit_key(#[trigger] ve[i]) == Some("DataVersion"@) || edit_key(ve[i])
            == Some("Version"@),
        forall|i: int| 0 <= i < se.len() ==> edit_key(#[trigger] se[i]) == Some("RandomSeed"@) || edit_key(se[i])
            == Some("WorldGenSettings"@) || edit_key(se[i]) is None,
        forall|i: int| 0 <= i < le.len() ==> edit_key(#[trigger] le[i]) == Some("LastPlayed"@),
    ensures
        forall|i: int| 0 <= i < (fe + ve + se + le).len() ==> edit_key(#[trigger] (fe + ve + se + le)[i]) != Some("LevelName"@),
{
    reveal_strlit("LevelName");
    reveal_strlit("GameType");
    reveal_strlit("SpawnX");
    reveal_strlit("SpawnY");
    reveal_strlit("SpawnZ");
    reveal_strlit("DataVersion");
    reveal_strlit("Version");
    reveal_strlit("RandomSeed");
    reveal_strlit("WorldGenSettings");
    reveal_strlit("LastPlayed");
    assert("LevelName"@.len() == 9);
    assert("GameType"@.len() == 8 && "SpawnX"@.len() == 6 && "SpawnY"@.len() == 6 && "SpawnZ"@.len() == 6);
    assert("DataVersion"@.len() == 11 && "Version"@.len() == 7 && "RandomSeed"@.len() == 10);
    assert("WorldGenSettings"@.len() == 16 && "LastPlayed"@.len() == 10);
    let all = fe + ve + se + le;
    assert forall|i: int| 0 <= i < all.len() implies edit_key(#[trigger] all[i]) != Some("LevelName"@) by {
        if i < fe.len() {
            assert(all[i] == fe[i]);
        } else if i < fe.len() + ve.len() {
            assert(all[i] == ve[i - fe.len()]);
        } else if i < fe.len() + ve.len() + se.len() {
            assert(all[i] == se[i - fe.len() - ve.len()]);
        } else {
            assert(all[i] == le[i - fe.len() - ve.len() - se.len()]);
        }
    }
}

proof fn lemma_field_edits_split(n: Seq<char>, game_type: Option<i32>, spawn: Option<Seq<i32>>)
    ensures
        field_edits(Some(n), game_type, spawn) == seq![LevelEditView::SetText("LevelName"@, n)]
            + field_edits(None, game_type, spawn),
{
    assert(field_edits(Some(n), game_type, spawn) =~= seq![LevelEditView::SetText("LevelName"@, n)]
        + field_edits(None, game_type, spawn));
}

proof fn lemma_name_after_edits(d: Seq<(Seq<char>, NbtView)>, n: Seq<char>, rest: Seq<LevelEditView>)
    requires
        forall|i: int| 0 <= i < rest.len() ==> edit_key(#[trigger] rest[i]) != Some("LevelName"@),
    ensures
        compound_get(edit_data_all(d, seq![LevelEditView::SetText("LevelName"@, n)] + rest), "LevelName"@)
            == Some(NbtView::Text(n)),
{
    let first = seq![LevelEditView::SetText("LevelName"@, n)];
    lemma_edits_split(d, first, rest);
    lemma_edit_data_one(d, LevelEditView::SetText("LevelName"@, n));
    crate::nbt::lemma_put_get_same(d, "LevelName"@, NbtView::Text(n));
    lemma_edits_keep(edit_data_all(d, first), rest, "LevelName"@);
}

#[verifier::spinoff_prover]
#[verifier::rlimit(80)]
proof fn lemma_patched_name(root: NbtView, opts: LevelPatchOptions, sidecar_exists: bool, now_millis: i64)
    requires
        opts.level_name is Some,
    ensures
        compound_get(
            edit_data_all(data_entries(root), edits_for(opts, data_entries(root), sidecar_exists, now_millis)),
            "LevelName"@,
        ) == Some(NbtView::Text(opts.level_name->Some_0@)),
{
    let d = data_entries(root);
    let spawn = match opts.spawn {
        Some(p) => Some(p@),
        None => None,
    };
    let n = opts.level_name->Some_0@;
    let fr = field_edits(None, opts.game_type, spawn);
    let ve = version_edits(opts.data_version, opt_str(opts.version_name), has_compound(d, "Version"@));
    let se = seed_edits(opts.seed, has_compound(d, "WorldGenSettings"@), sidecar_exists);
    let le = if opts.touch_last_played {
        seq![LevelEditView::SetLastPlayed(now_millis as int)]
    } else {
        seq![]
    };
    lemma_field_edits_split(n, opts.game_type, spawn);
    let first = seq![LevelEditView::SetText("LevelName"@, n)];
    let rest = fr + ve + se + le;
    assert(edits_for(opts, d, sidecar_exists, now_millis) =~= first + rest);
    lemma_field_keys(opts.game_type, spawn);
    lemma_version_keys(opts.data_version, opt_str(opts.version_name), has_compound(d, "Version"@));
    lemma_seed_keys(opts.seed, has_compound(d, "WorldGenSettings"@), sidecar_exists);
    lemma_keys_after_name(fr, ve, se, le);
    lemma_name_after_edits(d, n, rest);
}

/// Patching a `level.dat` with a new name and reading its fields back
/// gives that name.
pub proof fn law_patch_reads_back_name(
    root: NbtView,
    opts: LevelPatchOptions,
    sidecar_exists: bool,
    now_millis: i64,
    f: crate::level::LevelDatFields,
)
    requires
        patched_level(root, opts, sidecar_exists, now_millis) is Some,
        opts.level_name is Some,
        crate::level::fields_of(f, child_data(patched_level(root, opts, sidecar_exists, now_millis)->Some_0)),
    ensures
        crate::level::opt_text_view(f.level_name) == Some(opts.level_name->Some_0@),
{
    lemma_patched_data(root, opts, sidecar_exists, now_millis);
    lemma_patched_name(root, opts, sidecar_exists, now_millis);
}

/// Patching a `level.dat` with a new seed and reading its fields back
/// gives that seed as `RandomSeed`.
#[verifier::spinoff_prover]
#[verifier::rlimit(40)]
pub proof fn law_patch_reads_back_seed(
    root: NbtView,
    opts: LevelPatchOptions,
    sidecar_exists: bool,
    now_millis: i64,
    f: crate::level::LevelDatFields,
)
    requires
        patched_level(root, opts, sidecar_exists, now_millis) is Some,
        opts.seed is Some,
        crate::level::fields_of(f, child_data(patched_level(root, opts, sidecar_exists, now_millis)->Some_0)),
    ensures
        f.random_seed == opts.seed,
{
    reveal_strlit("RandomSeed");
    reveal_strlit("WorldGenSettings");
    reveal_strlit("LastPlayed");
    lemma_patched_data(root, opts, sidecar_exists, now_millis);
    let d = data_entries(root);
    let spawn = match opts.spawn {
        Some(p) => Some(p@),
        None => None,
    };
    let fe = field_edits(opt_str(opts.level_name), opts.game_type, spawn);
    let ve = version_edits(opts.data_version, opt_str(opts.version_name), has_compound(d, "Version"@));
    let se = seed_edits(opts.seed, has_compound(d, "WorldGenSettings"@), sidecar_exists);
    let le = if opts.touch_last_played {
        seq![LevelEditView::SetLastPlayed(now_millis as int)]
    } else {
        seq![]
    };
    let all = edits_for(opts, d, sidecar_exists, now_millis);
    assert(all == fe + ve + se + le);
    let sd = opts.seed->Some_0;
    let pre = fe + ve;
    let first = seq![LevelEditView::SetInt("RandomSeed"@, sd as int)];
    let rest = se.drop_first() + le;
    assert(se =~= first + se.drop_first());
    assert(all =~= pre + first + rest);
    lemma_edits_split(d, pre + first, rest);
    lemma_edits_split(d, pre, first);
    lemma_edit_data_one(edit_data_all(d, pre), LevelEditView::SetInt("RandomSeed"@, sd as int));
    crate::nbt::lemma_put_get_same(edit_data_all(d, pre), "RandomSeed"@, number_view(sd as int));
    assert forall|i: int| 0 <= i < rest.len() implies edit_key(#[trigger] rest[i]) != Some("RandomSeed"@) by {
        assert("RandomSeed"@.len() == 10 && "WorldGenSettings"@.len() == 16);
        assert("RandomSeed"@[0] != "LastPlayed"@[0]);
    }
    lemma_edits_keep(edit_data_all(d, pre + first), rest, "RandomSeed"@);
    assert(edit_data_all(d, pre + first) == compound_put(edit_data_all(d, pre), "RandomSeed"@, number_view(sd as int)));
    assert(compound_get(edit_data_all(d, all), "RandomSeed"@) == Some(number_view(sd as int)));
}

/// The `Data` compound of a tree (the tree itself when it has none).
pub open spec fn child_data(root: NbtView) -> NbtView {
    match child(Some(root), "Data"@) {
        Some(d) => d,
        None => root,
    }
}

} // verus!
