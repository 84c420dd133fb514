//! Block-model naming and face directions: model and texture paths inside
//! a client jar, cull-face rotation, and blockstate variant keys.

use vstd::prelude::*;
use crate::blockstate::{get_prop, props_get, props_view, PropsView};
use crate::text::{
    append, append_str, chars_of, eq_chars, eq_str, has_char, split, split_chars, split_once,
    split_once_chars, starts_with, starts_with_str, string_of, trim, trim_chars, views, slice_vec,
};

verus! {

#[derive(Clone, Copy, Debug, PartialEq, Eq, Hash, Structural)]
pub enum FaceDir {
    Down,
    Up,
    North,
    South,
    West,
    East,
}

pub open spec fn face_named(s: Seq<char>) -> Option<FaceDir> {
    if s == "down"@ {
        Some(FaceDir::Down)
    } else if s == "up"@ {
        Some(FaceDir::Up)
    } else if s == "north"@ {
        Some(FaceDir::North)
    } else if s == "south"@ {
        Some(FaceDir::South)
    } else if s == "west"@ {
        Some(FaceDir::West)
    } else if s == "east"@ {
        Some(FaceDir::East)
    } else {
        None
    }
}

pub open spec fn face_offset(d: FaceDir) -> (i32, i32, i32) {
    match d {
        FaceDir::Down => (0i32, -1i32, 0i32),
        FaceDir::Up => (0i32, 1i32, 0i32),
        FaceDir::North => (0i32, 0i32, -1i32),
        FaceDir::South => (0i32, 0i32, 1i32),
        FaceDir::West => (-1i32, 0i32, 0i32),
        FaceDir::East => (1i32, 0i32, 0i32),
    }
}

pub open spec fn face_inverse(d: FaceDir) -> FaceDir {
    match d {
        FaceDir::Down => FaceDir::Up,
        FaceDir::Up => FaceDir::Down,
        FaceDir::North => FaceDir::South,
        FaceDir::South => FaceDir::North,
        FaceDir::West => FaceDir::East,
        FaceDir::East => FaceDir::West,
    }
}

impl FaceDir {
    /// A face from its name in model JSON.
    pub fn parse(s: &str) -> (r: Option<Self>)
        ensures
            r == face_named(s@),
    {
        let c = chars_of(s);
        if eq_str(&c, "down") {
            Some(FaceDir::Down)
        } else if eq_str(&c, "up") {
            Some(FaceDir::Up)
        } else if eq_str(&c, "north") {
            Some(FaceDir::North)
        } else if eq_str(&c, "south") {
            Some(FaceDir::South)
        } else if eq_str(&c, "west") {
            Some(FaceDir::West)
        } else if eq_str(&c, "east") {
            Some(FaceDir::East)
        } else {
            None
        }
    }

    /// The unit step towards the neighbour on this side.
    pub fn offset(self) -> (r: (i32, i32, i32))
        ensures
            r == face_offset(self),
    {
        match self {
            FaceDir::Down => (0, -1, 0),
            FaceDir::Up => (0, 1, 0),
            FaceDir::North => (0, 0, -1),
            FaceDir::South => (0, 0, 1),
            FaceDir::West => (-1, 0, 0),
            FaceDir::East => (1, 0, 0),
        }
    }

    /// The opposite face.
    pub fn invert(self) -> (r: Self)
        ensures
            r == face_inverse(self),
    {
        match self {
            FaceDir::Down => FaceDir::Up,
            FaceDir::Up => FaceDir::Down,
            FaceDir::North => FaceDir::South,
            FaceDir::South => FaceDir::North,
            FaceDir::West => FaceDir::East,
            FaceDir::East => FaceDir::West,
        }
    }
}

/// The opposite of the opposite face is the face, and opposite faces step
/// in opposite directions.
pub proof fn law_invert_involution(d: FaceDir)
    ensures
        face_inverse(face_inverse(d)) == d,
        face_inverse(d) != d,
        face_offset(face_inverse(d)).0 == -face_offset(d).0,
        face_offset(face_inverse(d)).1 == -face_offset(d).1,
        face_offset(face_inverse(d)).2 == -face_offset(d).2,
{
}

/// Model path for a model reference: namespace dropped, `block/` added
/// unless it already names `block/` or `item/`.
pub open spec fn model_name(name: Seq<char>) -> Seq<char> {
    let n = if starts_with(name, "minecraft:"@) {
        name.skip(10)
    } else {
        name
    };
    if starts_with(n, "block/"@) || starts_with(n, "item/"@) {
        n
    } else {
        "block/"@ + n
    }
}

pub fn normalize_model_name(name: &str) -> (r: String)
    ensures
        r@ == model_name(name@),
{
    let c = chars_of(name);
    proof {
        reveal_strlit("minecraft:");
    }
    let n = if starts_with_str(&c, "minecraft:") {
        slice_vec(&c, 10, c.len())
    } else {
        c
    };
    assert(starts_with(name@, "minecraft:"@) ==> n@ =~= name@.skip(10));
    if starts_with_str(&n, "block/") || starts_with_str(&n, "item/") {
        string_of(&n)
    } else {
        let mut out = chars_of("block/");
        append(&mut out, &n);
        string_of(&out)
    }
}

/// Jar entry of a texture reference: namespace and a leading `#` dropped;
/// `None` when nothing is left.
pub open spec fn texture_path(tex: Seq<char>) -> Option<Seq<char>> {
    let t = if starts_with(tex, "minecraft:"@) {
        tex.skip(10)
    } else {
        tex
    };
    let t2 = if starts_with(t, "#"@) {
        t.skip(1)
    } else {
        t
    };
    if t2.len() == 0 {
        None
    } else {
        Some("assets/minecraft/textures/"@ + t2 + ".png"@)
    }
}

pub fn texture_jar_path(tex: &str) -> (r: Option<String>)
    ensures
        match texture_path(tex@) {
            Some(p) => r is Some && r->Some_0@ == p,
            None => r is None,
        },
{
    let c = chars_of(tex);
    proof {
        reveal_strlit("minecraft:");
        reveal_strlit("#");
    }
    let t = if starts_with_str(&c, "minecraft:") {
        slice_vec(&c, 10, c.len())
    } else {
        c
    };
    assert(starts_with(tex@, "minecraft:"@) ==> t@ =~= tex@.skip(10));
    let t2 = if starts_with_str(&t, "#") {
        slice_vec(&t, 1, t.len())
    } else {
        t
    };
    assert(starts_with(t@, "#"@) ==> t2@ =~= t@.skip(1));
    if t2.len() == 0 {
        return None;
    }
    let mut out = chars_of("assets/minecraft/textures/");
    append(&mut out, &t2);
    append_str(&mut out, ".png");
    Some(string_of(&out))
}

pub open spec fn cull_x90(d: FaceDir) -> FaceDir {
    match d {
        FaceDir::North => FaceDir::Down,
        FaceDir::Up => FaceDir::North,
        FaceDir::South => FaceDir::Up,
        FaceDir::Down => FaceDir::South,
        o => o,
    }
}

pub open spec fn cull_x180(d: FaceDir) -> FaceDir {
    match d {
        FaceDir::North => FaceDir::South,
        FaceDir::Up => FaceDir::Down,
        FaceDir::South => FaceDir::North,
        FaceDir::Down => FaceDir::Up,
        o => o,
    }
}

pub open spec fn cull_x270(d: FaceDir) -> FaceDir {
    match d {
        FaceDir::North => FaceDir::Up,
        FaceDir::Up => FaceDir::South,
        FaceDir::South => FaceDir::Down,
        FaceDir::Down => FaceDir::North,
        o => o,
    }
}

pub open spec fn cull_y90(d: FaceDir) -> FaceDir {
    match d {
        FaceDir::North => FaceDir::East,
        FaceDir::East => FaceDir::South,
        FaceDir::South => FaceDir::West,
        FaceDir::West => FaceDir::North,
        o => o,
    }
}

pub open spec fn cull_y180(d: FaceDir) -> FaceDir {
    match d {
        FaceDir::North => FaceDir::South,
        FaceDir::East => FaceDir::West,
        FaceDir::South => FaceDir::North,
        FaceDir::West => FaceDir::East,
        o => o,
    }
}

pub open spec fn cull_y270(d: FaceDir) -> FaceDir {
    match d {
        FaceDir::North => FaceDir::West,
        FaceDir::East => FaceDir::North,
        FaceDir::South => FaceDir::East,
        FaceDir::West => FaceDir::South,
        o => o,
    }
}

pub open spec fn map_face(c: Option<FaceDir>, f: spec_fn(FaceDir) -> FaceDir) -> Option<FaceDir> {
    match c {
        Some(d) => Some(f(d)),
        None => None,
    }
}

/// Cull face after a 90° turn about x.
pub fn map_cull_x90(c: Option<FaceDir>) -> (r: Option<FaceDir>)
    ensures
        r == map_face(c, |d: FaceDir| cull_x90(d)),
{
    match c {
        None => None,
        Some(d) => Some(
            match d {
                FaceDir::North => FaceDir::Down,
                FaceDir::Up => FaceDir::North,
                FaceDir::South => FaceDir::Up,
                FaceDir::Down => FaceDir::South,
                o => o,
            },
        ),
    }
}

/// Cull face after a 180° turn about x.
pub fn map_cull_x180(c: Option<FaceDir>) -> (r: Option<FaceDir>)
    ensures
        r == map_face(c, |d: FaceDir| cull_x180(d)),
{
    match c {
        None => None,
        Some(d) => Some(
            match d {
                FaceDir::North => FaceDir::South,
                FaceDir::Up => FaceDir::Down,
                FaceDir::South => FaceDir::North,
                FaceDir::Down => FaceDir::Up,
                o => o,
            },
        ),
    }
}

/// Cull face after a 270° turn about x.
pub fn map_cull_x270(c: Option<FaceDir>) -> (r: Option<FaceDir>)
    ensures
        r == map_face(c, |d: FaceDir| cull_x270(d)),
{
    match c {
        None => None,
        Some(d) => Some(
            match d {
                FaceDir::North => FaceDir::Up,
                FaceDir::Up => FaceDir::South,
                FaceDir::South => FaceDir::Down,
                FaceDir::Down => FaceDir::North,
                o => o,
            },
        ),
    }
}

/// Cull face after a 90° turn about y.
pub fn map_cull_y90(c: Option<FaceDir>) -> (r: Option<FaceDir>)
    ensures
        r == map_face(c, |d: FaceDir| cull_y90(d)),
{
    match c {
        None => None,
        Some(d) => Some(
            match d {
                FaceDir::North => FaceDir::East,
                FaceDir::East => FaceDir::South,
                FaceDir::South => FaceDir::West,
                FaceDir::West => FaceDir::North,
                o => o,
            },
        ),
    }
}

/// Cull face after a 180° turn about y.
pub fn map_cull_y180(c: Option<FaceDir>) -> (r: Option<FaceDir>)
    ensures
        r == map_face(c, |d: FaceDir| cull_y180(d)),
{
    match c {
        None => None,
        Some(d) => Some(
            match d {
                FaceDir::North => FaceDir::South,
                FaceDir::East => FaceDir::West,
                FaceDir::South => FaceDir::North,
                FaceDir::West => FaceDir::East,
                o => o,
            },
        ),
    }
}

/// Cull face after a 270° turn about y.
pub fn map_cull_y270(c: Option<FaceDir>) -> (r: Option<FaceDir>)
    ensures
        r == map_face(c, |d: FaceDir| cull_y270(d)),
{
    match c {
        None => None,
        Some(d) => Some(
            match d {
                FaceDir::North => FaceDir::West,
                FaceDir::East => FaceDir::North,
                FaceDir::South => FaceDir::East,
                FaceDir::West => FaceDir::South,
                o => o,
            },
        ),
    }
}

/// Turning by a quarter and back, or by a half twice, leaves a cull face
/// where it was; three quarter turns make the opposite quarter turn.
pub proof fn law_cull_rotations_compose(d: FaceDir)
    ensures
        cull_x270(cull_x90(d)) == d,
        cull_x90(cull_x270(d)) == d,
        cull_x180(cull_x180(d)) == d,
        cull_x90(cull_x90(d)) == cull_x180(d),
        cull_x90(cull_x90(cull_x90(d))) == cull_x270(d),
        cull_y270(cull_y90(d)) == d,
        cull_y90(cull_y270(d)) == d,
        cull_y180(cull_y180(d)) == d,
        cull_y90(cull_y90(d)) == cull_y180(d),
        cull_y90(cull_y90(cull_y90(d))) == cull_y270(d),
{
}

/// Whether a blockstate variant key (`k=v,k=v`, or empty) matches the
/// properties: every `k=v` part names a property with that value (keys and
/// values trimmed); parts without `=` are ignored.
pub open spec fn key_parts_match(parts: Seq<Seq<char>>, props: PropsView) -> bool
    decreases parts.len(),
{
    if parts.len() == 0 {
        true
    } else {
        let rest = key_parts_match(parts.drop_first(), props);
        match split_once(parts[0], '=') {
            None => rest,
            Some((k, v)) => match props_get(props, trim(k)) {
                Some(pv) => pv == trim(v) && rest,
                None => false,
            },
        }
    }
}

pub open spec fn variant_key_match(key: Seq<char>, props: PropsView) -> bool {
    key.len() == 0 || key_parts_match(split(key, ','), props)
}

/// Whether a blockstate variant key selects a state with these properties.
pub fn variant_key_matches(key: &str, props: &Vec<(String, String)>) -> (r: bool)
    ensures
        r == variant_key_match(key@, props_view(props@)),
{
    let kc = chars_of(key);
    if kc.len() == 0 {
        return true;
    }
    let parts = split_chars(&kc, ',');
    let ghost pv = views(parts@);
    let mut i: usize = 0;
    assert(pv.skip(0) =~= pv);
    while i < parts.len()
        invariant
            i <= parts@.len(),
            pv == views(parts@),
            pv == split(key@, ','),
            key_parts_match(pv, props_view(props@)) == key_parts_match(
                pv.skip(i as int),
                props_view(props@),
            ),
        decreases parts.len() - i,
    {
        let ghost rest = pv.skip(i as int);
        assert(rest[0] == parts@[i as int]@);
        assert(rest.drop_first() =~= pv.skip(i + 1));
        match split_once_chars(&parts[i], '=') {
            None => {},
            Some((k, v)) => {
                let kt = trim_chars(&k);
                let vt = trim_chars(&v);
                let ks = string_of(&kt);
                match get_prop(props, ks.as_str()) {
                    None => return false,
                    Some(pv2) => {
                        let pc = chars_of(pv2.as_str());
                        if !eq_chars(&pc, &vt) {
                            return false;
                        }
                    },
                }
            },
        }
        i += 1;
    }
    assert(pv.skip(parts@.len() as int) =~= Seq::<Seq<char>>::empty());
    true
}

/// One multipart clause as the blockstate file gives it: its entries, key
/// and value (the value when it is text), or `None` when it is no object.
#[derive(Clone, Debug)]
pub struct Condition {
    pub entries: Option<Vec<(String, Option<String>)>>,
}

/// A multipart `when`: an `OR` list, an `AND` list, or one clause.
#[derive(Clone, Debug)]
pub enum WhenClause {
    Or(Vec<Condition>),
    And(Vec<Condition>),
    Plain(Condition),
}

pub open spec fn entries_view(es: Seq<(String, Option<String>)>) -> Seq<(Seq<char>, Option<Seq<char>>)> {
    es.map_values(
        |e: (String, Option<String>)|
            (
                e.0@,
                match e.1 {
                    Some(v) => Some(v@),
                    None => None,
                },
            ),
    )
}

/// One entry of a clause holds: `OR`/`AND` keys are skipped; else the value
/// is text, the property is set, and one of the `|`-separated alternatives
/// equals it.
pub open spec fn entry_holds(e: (Seq<char>, Option<Seq<char>>), props: PropsView) -> bool {
    e.0 == "OR"@ || e.0 == "AND"@ || match (e.1, props_get(props, e.0)) {
        (Some(want), Some(have)) => split(want, '|').contains(have),
        _ => false,
    }
}

/// A clause holds when it is an object and every entry holds.
pub open spec fn clause_holds(c: Condition, props: PropsView) -> bool {
    match c.entries {
        None => false,
        Some(es) => forall|i: int|
            0 <= i < es@.len() ==> #[trigger] entry_holds(entries_view(es@)[i], props),
    }
}

/// Whether a multipart part applies: no condition always does; `OR` needs
/// one clause, `AND` every clause, a plain clause itself.
pub open spec fn when_holds(w: Option<WhenClause>, props: PropsView) -> bool {
    match w {
        None => true,
        Some(WhenClause::Or(cs)) => exists|i: int|
            0 <= i < cs@.len() && #[trigger] clause_holds(cs@[i], props),
        Some(WhenClause::And(cs)) => forall|i: int|
            0 <= i < cs@.len() ==> #[trigger] clause_holds(cs@[i], props),
        Some(WhenClause::Plain(c)) => clause_holds(c, props),
    }
}

#[verifier::loop_isolation(false)]
fn entry_matches(key: &String, want: &Option<String>, props: &Vec<(String, String)>) -> (r: bool)
    ensures
        r == entry_holds(
            (
                key@,
                match want {
                    Some(v) => Some(v@),
                    None => None,
                },
            ),
            props_view(props@),
        ),
{
    proof {
        reveal_strlit("OR");
        reveal_strlit("AND");
    }
    if eq_str(&chars_of(key.as_str()), "OR") || eq_str(&chars_of(key.as_str()), "AND") {
        return true;
    }
    let w = match want {
        Some(w) => w,
        None => return false,
    };
    let have = match get_prop(props, key.as_str()) {
        Some(h) => chars_of(h.as_str()),
        None => return false,
    };
    let alts = split_chars(&chars_of(w.as_str()), '|');
    let ghost av = views(alts@);
    let mut i: usize = 0;
    while i < alts.len()
        invariant
            i <= alts@.len(),
            av == views(alts@),
            av == split(w@, '|'),
            forall|j: int| 0 <= j < i ==> av[j] != have@,
        decreases alts.len() - i,
    {
        if eq_chars(&alts[i], &have) {
            assert(av[i as int] == have@);
            assert(av.contains(have@));
            return true;
        }
        i += 1;
    }
    assert(!av.contains(have@));
    false
}

/// Whether one multipart clause holds for these properties.
#[verifier::loop_isolation(false)]
pub fn clause_matches(c: &Condition, props: &Vec<(String, String)>) -> (r: bool)
    ensures
        r == clause_holds(*c, props_view(props@)),
{
    let es = match &c.entries {
        Some(es) => es,
        None => return false,
    };
    let mut i: usize = 0;
    while i < es.len()
        invariant
            i <= es@.len(),
            c.entries == Some(*es),
            forall|j: int| 0 <= j < i ==> #[trigger] entry_holds(entries_view(es@)[j], props_view(props@)),
        decreases es.len() - i,
    {
        assert(entries_view(es@)[i as int] == (
            es@[i as int].0@,
            match es@[i as int].1 {
                Some(v) => Some(v@),
                None => None,
            },
        ));
        if !entry_matches(&es[i].0, &es[i].1, props) {
            assert(!entry_holds(entries_view(es@)[i as int], props_view(props@)));
            return false;
        }
        i += 1;
    }
    true
}

/// Whether a multipart part with this `when` applies to these properties.
#[verifier::loop_isolation(false)]
pub fn when_matches(when: Option<&WhenClause>, props: &Vec<(String, String)>) -> (r: bool)
    ensures
        r == when_holds(
            match when {
                Some(w) => Some(*w),
                None => None,
            },
            props_view(props@),
        ),
{
    match when {
        None => true,
        Some(WhenClause::Or(cs)) => {
            let mut i: usize = 0;
            while i < cs.len()
                invariant
                    i <= cs@.len(),
                    forall|j: int| 0 <= j < i ==> !#[trigger] clause_holds(cs@[j], props_view(props@)),
                decreases cs.len() - i,
            {
                if clause_matches(&cs[i], props) {
                    assert(clause_holds(cs@[i as int], props_view(props@)));
                    return true;
                }
                i += 1;
            }
            false
        },
        Some(WhenClause::And(cs)) => {
            let mut i: usize = 0;
            while i < cs.len()
                invariant
                    i <= cs@.len(),
                    forall|j: int| 0 <= j < i ==> #[trigger] clause_holds(cs@[j], props_view(props@)),
                decreases cs.len() - i,
            {
                if !clause_matches(&cs[i], props) {
                    assert(!clause_holds(cs@[i as int], props_view(props@)));
                    return false;
                }
                i += 1;
            }
            true
        },
        Some(WhenClause::Plain(c)) => clause_matches(c, props),
    }
}

/// The first variant key, in file order, that selects a state with these
/// properties.
pub fn match_variant(keys: &Vec<String>, props: &Vec<(String, String)>) -> (r: Option<usize>)
    ensures
        match r {
            Some(i) => i < keys@.len() && variant_key_match(keys@[i as int]@, props_view(props@))
                && forall|j: int| 0 <= j < i ==> !variant_key_match(#[trigger] keys@[j]@, props_view(props@)),
            None => forall|j: int|
                0 <= j < keys@.len() ==> !variant_key_match(#[trigger] keys@[j]@, props_view(props@)),
        },
{
    let mut i: usize = 0;
    while i < keys.len()
        invariant
            i <= keys@.len(),
            forall|j: int| 0 <= j < i ==> !variant_key_match(#[trigger] keys@[j]@, props_view(props@)),
        decreases keys.len() - i,
    {
        if variant_key_matches(keys[i].as_str(), props) {
            return Some(i);
        }
        i += 1;
    }
    None
}

/// The value of the first entry named `k`.
pub open spec fn entry_get(es: Seq<(Seq<char>, Option<Seq<char>>)>, k: Seq<char>) -> Option<
    Option<Seq<char>>,
>
    decreases es.len(),
{
    if es.len() == 0 {
        None
    } else if es[0].0 == k {
        Some(es[0].1)
    } else {
        entry_get(es.drop_first(), k)
    }
}

/// How many `#` links a texture reference may follow.
pub const TEXTURE_LINKS: usize = 32;

/// A model texture reference followed through the model's `textures` map
/// for at most `fuel` steps: `#name` looks `name` up (failing when it is
/// missing or not text); an empty name fails; a name without namespace
/// gets `minecraft:`.
pub open spec fn texture_chain(tex: Seq<(Seq<char>, Option<Seq<char>>)>, cur: Seq<char>, fuel: nat) -> Option<
    Seq<char>,
>
    decreases fuel,
{
    if fuel == 0 {
        None
    } else if cur.len() > 0 && cur[0] == '#' {
        match entry_get(tex, cur.drop_first()) {
            Some(Some(next)) => texture_chain(tex, next, (fuel - 1) as nat),
            _ => None,
        }
    } else if cur.len() == 0 {
        None
    } else if cur.contains(':') {
        Some(cur)
    } else {
        Some("minecraft:"@ + cur)
    }
}

fn entry_lookup(es: &Vec<(String, Option<String>)>, k: &[char]) -> (r: Option<Option<Vec<char>>>)
    ensures
        match entry_get(entries_view(es@), k@) {
            None => r is None,
            Some(None) => r == Some(None::<Vec<char>>),
            Some(Some(v)) => r is Some && r->Some_0 is Some && r->Some_0->Some_0@ == v,
        },
{
    let ghost ev = entries_view(es@);
    let mut i: usize = 0;
    assert(ev.skip(0) =~= ev);
    while i < es.len()
        invariant
            i <= es@.len(),
            ev == entries_view(es@),
            entry_get(ev, k@) == entry_get(ev.skip(i as int), k@),
        decreases es.len() - i,
    {
        let ghost rest = ev.skip(i as int);
        assert(rest[0] == ev[i as int]);
        assert(rest.drop_first() =~= ev.skip(i + 1));
        if eq_chars(&chars_of(es[i].0.as_str()), k) {
            return match &es[i].1 {
                Some(v) => Some(Some(chars_of(v.as_str()))),
                None => Some(None),
            };
        }
        i += 1;
    }
    None
}

/// Resolve a face's texture reference through the model's `textures`.
pub fn resolve_texture(textures: &Vec<(String, Option<String>)>, key: &str) -> (r: Option<String>)
    ensures
        match texture_chain(entries_view(textures@), key@, TEXTURE_LINKS as nat) {
            Some(t) => r is Some && r->Some_0@ == t,
            None => r is None,
        },
{
    let ghost tv = entries_view(textures@);
    let mut cur = chars_of(key);
    let mut n: usize = 0;
    while n < TEXTURE_LINKS
        invariant
            n <= TEXTURE_LINKS,
            tv == entries_view(textures@),
            texture_chain(tv, key@, TEXTURE_LINKS as nat) == texture_chain(
                tv,
                cur@,
                (TEXTURE_LINKS - n) as nat,
            ),
        decreases TEXTURE_LINKS - n,
    {
        if cur.len() > 0 && cur[0] == '#' {
            let rest = slice_vec(&cur, 1, cur.len());
            assert(rest@ =~= cur@.drop_first());
            match entry_lookup(textures, &rest) {
                Some(Some(next)) => {
                    cur = next;
                    n += 1;
                },
                _ => return None,
            }
        } else if cur.len() == 0 {
            return None;
        } else if has_char(&cur, ':') {
            return Some(string_of(&cur));
        } else {
            let mut full = chars_of("minecraft:");
            append(&mut full, &cur);
            proof {
                reveal_strlit("minecraft:");
            }
            return Some(string_of(&full));
        }
    }
    None
}

} // verus!
