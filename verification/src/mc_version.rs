//! Minecraft release ↔ DataVersion mapping for world / chunk / level.dat.

use vstd::prelude::*;
use crate::text::{
    append, append_str, chars_of, eq_chars, int_text, lower, lower_chars, parse_in_range,
    parse_int_chars, push_int, string_from, string_of, trim, trimmed,
};

verus! {

/// Default target when creating new worlds (Java Edition 26.2).
pub const DEFAULT_MC: &'static str = "26.2";

pub const DEFAULT_DATA_VERSION: i32 = 4903;

/// Anvil level format id (TAG `version` inside Data).
pub const ANVIL_LEVEL_VERSION: i32 = 19133;

/// From 1.21.9 onward, Mojang moved several fields out of `level.dat` into
/// `data/minecraft/*.dat` (world_gen_settings, game_rules, …).
pub const MODERN_LEVEL_DAT_MIN: i32 = 4435;

/// A known release: alias, display name and DataVersion.
#[derive(Clone, Copy, Debug, PartialEq, Eq)]
pub struct McRelease {
    pub alias: &'static str,
    pub name: &'static str,
    pub data_version: i32,
}

/// Known releases (alias, name, DataVersion), newest first.
pub open spec fn releases() -> Seq<(Seq<char>, Seq<char>, i32)> {
    seq![
        ("26.2"@, "26.2"@, 4903i32),
        ("1.21.11"@, "1.21.11"@, 4671i32),
        ("1.21.10"@, "1.21.10"@, 4556i32),
        ("1.21.4"@, "1.21.4"@, 4189i32),
        ("1.21.1"@, "1.21.1"@, 3955i32),
        ("1.21"@, "1.21"@, 3738i32),
        ("1.20.4"@, "1.20.4"@, 3700i32),
        ("1.20.1"@, "1.20.1"@, 3465i32),
        ("1.20"@, "1.20"@, 3463i32),
        ("1.19.4"@, "1.19.4"@, 3337i32),
        ("1.18.2"@, "1.18.2"@, 2975i32),
    ]
}

pub open spec fn release_view(r: McRelease) -> (Seq<char>, Seq<char>, i32) {
    (r.alias@, r.name@, r.data_version)
}

/// Known release aliases MCAEdit can target when creating worlds (exact
/// Java Edition release DataVersions).
pub fn known_releases() -> (r: Vec<McRelease>)
    ensures
        r@.map_values(|m: McRelease| release_view(m)) == releases(),
        r@.len() == releases().len(),
        releases().len() == 11,
        forall|i: int| 0 <= i < r@.len() ==> release_view(#[trigger] r@[i]) == releases()[i],
{
    let r = vec![
        McRelease { alias: "26.2", name: "26.2", data_version: 4903 },
        McRelease { alias: "1.21.11", name: "1.21.11", data_version: 4671 },
        McRelease { alias: "1.21.10", name: "1.21.10", data_version: 4556 },
        McRelease { alias: "1.21.4", name: "1.21.4", data_version: 4189 },
        McRelease { alias: "1.21.1", name: "1.21.1", data_version: 3955 },
        McRelease { alias: "1.21", name: "1.21", data_version: 3738 },
        McRelease { alias: "1.20.4", name: "1.20.4", data_version: 3700 },
        McRelease { alias: "1.20.1", name: "1.20.1", data_version: 3465 },
        McRelease { alias: "1.20", name: "1.20", data_version: 3463 },
        McRelease { alias: "1.19.4", name: "1.19.4", data_version: 3337 },
        McRelease { alias: "1.18.2", name: "1.18.2", data_version: 2975 },
    ];
    assert(r@.map_values(|m: McRelease| release_view(m)) =~= releases());
    assert forall|i: int| 0 <= i < r@.len() implies release_view(#[trigger] r@[i]) == releases()[i] by {
        assert(r@.map_values(|m: McRelease| release_view(m))[i] == release_view(r@[i]));
    }
    r
}

/// A resolved target version.
pub struct VersionView {
    pub name: Seq<char>,
    pub data_version: i32,
    pub modern_layout: bool,
}

#[derive(Clone, Debug)]
pub struct ResolvedVersion {
    pub name: String,
    pub data_version: i32,
    pub modern_layout: bool,
}

impl View for ResolvedVersion {
    type V = VersionView;

    open spec fn view(&self) -> VersionView {
        VersionView {
            name: self.name@,
            data_version: self.data_version,
            modern_layout: self.modern_layout,
        }
    }
}

/// Index of the first release from `i` on whose DataVersion is `dv` (-1 if none).
pub open spec fn first_with_data_version(
    rs: Seq<(Seq<char>, Seq<char>, i32)>,
    dv: i32,
    i: int,
) -> int
    decreases rs.len() - i,
{
    if i >= rs.len() || i < 0 {
        -1
    } else if rs[i].2 == dv {
        i
    } else {
        first_with_data_version(rs, dv, i + 1)
    }
}

/// Index of the first release from `i` on whose alias or name matches `l`
/// ignoring ASCII case (-1 if none).
pub open spec fn first_matching(rs: Seq<(Seq<char>, Seq<char>, i32)>, l: Seq<char>, i: int) -> int
    decreases rs.len() - i,
{
    if i >= rs.len() || i < 0 {
        -1
    } else if release_matches(rs[i], l) {
        i
    } else {
        first_matching(rs, l, i + 1)
    }
}

/// Name of the release with this DataVersion, else `data-N`.
pub open spec fn name_for_data_version(dv: i32) -> Seq<char> {
    let i = first_with_data_version(releases(), dv, 0);
    if i >= 0 {
        releases()[i].1
    } else {
        "data-"@ + int_text(dv as int)
    }
}

pub open spec fn version_of_data_version(dv: i32) -> VersionView {
    VersionView {
        name: name_for_data_version(dv),
        data_version: dv,
        modern_layout: dv >= MODERN_LEVEL_DAT_MIN,
    }
}

/// `alias` or `name` equal to `s` ignoring ASCII case.
pub open spec fn release_matches(r: (Seq<char>, Seq<char>, i32), s: Seq<char>) -> bool {
    lower(r.0) == lower(s) || lower(r.1) == lower(s)
}

/// Comma-separated aliases of the known releases.
pub open spec fn aliases_text(rs: Seq<(Seq<char>, Seq<char>, i32)>) -> Seq<char>
    decreases rs.len(),
{
    if rs.len() == 0 {
        seq![]
    } else if rs.len() == 1 {
        rs[0].0
    } else {
        aliases_text(rs.drop_last()) + ", "@ + rs.last().0
    }
}

/// What `from_mc` gives for a `--mc` argument.
pub open spec fn from_mc_spec(spec: Seq<char>) -> Result<VersionView, Seq<char>> {
    let t = trim(spec);
    match parse_in_range(t, true, i32::MIN as int, i32::MAX as int) {
        Some(dv) => Ok(version_of_data_version(dv as i32)),
        None => {
            let l = lower(t);
            let i = first_matching(releases(), l, 0);
            if i >= 0 {
                Ok(
                    VersionView {
                        name: releases()[i].1,
                        data_version: releases()[i].2,
                        modern_layout: releases()[i].2 >= MODERN_LEVEL_DAT_MIN,
                    },
                )
            } else {
                Err(
                    "unknown --mc `"@ + t + "`; known: "@ + aliases_text(releases())
                        + " (or raw DataVersion int)"@,
                )
            }
        },
    }
}

impl ResolvedVersion {
    /// The default target (26.2).
    pub fn default_latest() -> (r: Self)
        ensures
            r@ == (VersionView { name: "26.2"@, data_version: 4903, modern_layout: true }),
    {
        let rs = known_releases();
        let r = ResolvedVersion {
            name: string_from(rs[0].name),
            data_version: rs[0].data_version,
            modern_layout: rs[0].data_version >= MODERN_LEVEL_DAT_MIN,
        };
        assert(release_view(rs@[0]) == releases()[0]);
        r
    }

    /// The release with this DataVersion, or `data-N`.
    pub fn from_data_version(data_version: i32) -> (r: Self)
        ensures
            r@ == version_of_data_version(data_version),
    {
        let rs = known_releases();
        let mut i: usize = 0;
        while i < rs.len()
            invariant
                i <= rs@.len(),
                rs@.map_values(|m: McRelease| release_view(m)) == releases(),
                rs@.len() == releases().len(),
                forall|j: int| 0 <= j < rs@.len() ==> release_view(#[trigger] rs@[j]) == releases()[j],
                first_with_data_version(releases(), data_version, 0)
                    == first_with_data_version(releases(), data_version, i as int),
            decreases rs.len() - i,
        {
            assert(release_view(rs@[i as int]) == releases()[i as int]);
            if rs[i].data_version == data_version {
                return ResolvedVersion {
                    name: string_from(rs[i].name),
                    data_version,
                    modern_layout: data_version >= MODERN_LEVEL_DAT_MIN,
                };
            }
            i += 1;
        }
        let mut n = chars_of("data-");
        push_int(&mut n, data_version as i64);
        ResolvedVersion {
            name: string_of(&n),
            data_version,
            modern_layout: data_version >= MODERN_LEVEL_DAT_MIN,
        }
    }

    /// Parse `--mc 26.2|1.21.4|…` or a raw DataVersion integer string.
    pub fn from_mc(spec: &str) -> (r: Result<Self, String>)
        ensures
            match r {
                Ok(v) => from_mc_spec(spec@) == Ok::<VersionView, Seq<char>>(v@),
                Err(e) => from_mc_spec(spec@) == Err::<VersionView, Seq<char>>(e@),
            },
    {
        let t = trimmed(spec);
        match parse_int_chars(&t, true, i32::MIN as i64, i32::MAX as i64) {
            Some(dv) => return Ok(Self::from_data_version(dv as i32)),
            None => {},
        }
        let l = lower_chars(&t);
        let rs = known_releases();
        let ghost lv = l@;
        proof {
            lemma_lower_idempotent(t@);
        }
        let mut i: usize = 0;
        while i < rs.len()
            invariant
                i <= rs@.len(),
                lv == l@,
                lv == lower(t@),
                lower(lv) == lv,
                t@ == trim(spec@),
                parse_in_range(t@, true, i32::MIN as int, i32::MAX as int) is None,
                rs@.map_values(|m: McRelease| release_view(m)) == releases(),
                rs@.len() == releases().len(),
                forall|j: int| 0 <= j < rs@.len() ==> release_view(#[trigger] rs@[j]) == releases()[j],
                first_matching(releases(), lv, 0) == first_matching(releases(), lv, i as int),
            decreases rs.len() - i,
        {
            assert(release_view(rs@[i as int]) == releases()[i as int]);
            let a = lower_chars(&chars_of(rs[i].alias));
            let n = lower_chars(&chars_of(rs[i].name));
            if eq_chars(&a, &l) || eq_chars(&n, &l) {
                assert(release_matches(releases()[i as int], lv));
                assert(first_matching(releases(), lv, i as int) == i as int);
                return Ok(
                    ResolvedVersion {
                        name: string_from(rs[i].name),
                        data_version: rs[i].data_version,
                        modern_layout: rs[i].data_version >= MODERN_LEVEL_DAT_MIN,
                    },
                );
            }
            i += 1;
        }
        let mut msg = chars_of("unknown --mc `");
        append(&mut msg, &t);
        append_str(&mut msg, "`; known: ");
        let names = aliases(&rs);
        append(&mut msg, &names);
        append_str(&mut msg, " (or raw DataVersion int)");
        Err(string_of(&msg))
    }

    /// `--mc` and `--data-version` together: the release of `mc` with the
    /// given DataVersion; each alone resolves by itself; neither gives 26.2.
    pub fn resolve(mc: Option<&str>, data_version: Option<i32>) -> (r: Result<Self, String>)
        ensures
            match (mc, data_version) {
                (Some(m), Some(dv)) => match from_mc_spec(m@) {
                    Ok(v) => r is Ok && r->Ok_0@ == (VersionView {
                        name: v.name,
                        data_version: dv,
                        modern_layout: dv >= MODERN_LEVEL_DAT_MIN,
                    }),
                    Err(e) => r is Err && r->Err_0@ == e,
                },
                (Some(m), None) => match from_mc_spec(m@) {
                    Ok(v) => r is Ok && r->Ok_0@ == v,
                    Err(e) => r is Err && r->Err_0@ == e,
                },
                (None, Some(dv)) => r is Ok && r->Ok_0@ == version_of_data_version(dv),
                (None, None) => r is Ok && r->Ok_0@ == (VersionView {
                    name: "26.2"@,
                    data_version: 4903,
                    modern_layout: true,
                }),
            },
    {
        match (mc, data_version) {
            (Some(m), Some(dv)) => match Self::from_mc(m) {
                Err(e) => Err(e),
                Ok(v) => {
                    let mut v = v;
                    v.data_version = dv;
                    v.modern_layout = dv >= MODERN_LEVEL_DAT_MIN;
                    Ok(v)
                },
            },
            (Some(m), None) => Self::from_mc(m),
            (None, Some(dv)) => Ok(Self::from_data_version(dv)),
            (None, None) => Ok(Self::default_latest()),
        }
    }
}

proof fn lemma_lower_idempotent(s: Seq<char>)
    ensures
        lower(lower(s)) == lower(s),
{
    assert(lower(lower(s)) =~= lower(s));
}

fn aliases(rs: &Vec<McRelease>) -> (r: Vec<char>)
    requires
        rs@.map_values(|m: McRelease| release_view(m)) == releases(),
    ensures
        r@ == aliases_text(releases()),
{
    let mut out: Vec<char> = Vec::new();
    let mut i: usize = 0;
    while i < rs.len()
        invariant
            i <= rs@.len(),
            rs@.map_values(|m: McRelease| release_view(m)) == releases(),
            out@ == aliases_text(releases().take(i as int)),
        decreases rs.len() - i,
    {
        assert(release_view(rs@[i as int]) == releases()[i as int]);
        assert(releases().take(i + 1).drop_last() =~= releases().take(i as int));
        if i > 0 {
            append_str(&mut out, ", ");
        } else {
            assert(releases().take(0) =~= Seq::<(Seq<char>, Seq<char>, i32)>::empty());
        }
        let a = chars_of(rs[i].alias);
        append(&mut out, &a);
        i += 1;
    }
    assert(releases().take(rs@.len() as int) =~= releases());
    out
}

/// `alias=DataVersion` pairs of the known releases.
pub open spec fn summary_text(rs: Seq<(Seq<char>, Seq<char>, i32)>) -> Seq<char>
    decreases rs.len(),
{
    if rs.len() == 0 {
        seq![]
    } else if rs.len() == 1 {
        rs[0].0 + "="@ + int_text(rs[0].2 as int)
    } else {
        summary_text(rs.drop_last()) + ", "@ + rs.last().0 + "="@ + int_text(rs.last().2 as int)
    }
}

/// Human-readable list for docs / `--help`.
pub fn supported_mc_summary() -> (r: String)
    ensures
        r@ == summary_text(releases()),
{
    let rs = known_releases();
    let mut out: Vec<char> = Vec::new();
    let mut i: usize = 0;
    while i < rs.len()
        invariant
            i <= rs@.len(),
            rs@.map_values(|m: McRelease| release_view(m)) == releases(),
            out@ == summary_text(releases().take(i as int)),
        decreases rs.len() - i,
    {
        assert(release_view(rs@[i as int]) == releases()[i as int]);
        assert(releases().take(i + 1).drop_last() =~= releases().take(i as int));
        if i > 0 {
            append_str(&mut out, ", ");
        } else {
            assert(releases().take(0) =~= Seq::<(Seq<char>, Seq<char>, i32)>::empty());
        }
        let a = chars_of(rs[i].alias);
        append(&mut out, &a);
        append_str(&mut out, "=");
        push_int(&mut out, rs[i].data_version as i64);
        i += 1;
    }
    assert(releases().take(rs@.len() as int) =~= releases());
    string_of(&out)
}

} // verus!
