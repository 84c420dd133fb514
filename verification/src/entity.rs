//! Entity records: how an entity's UUID is read from its NBT, in any of the
//! forms Minecraft has stored it.

use vstd::prelude::*;

verus! {

/// The `UUID` entry of an entity's NBT: text, a list of numbers (each as an
/// integer when it is one), or anything else (including missing).
#[derive(Clone, Debug)]
pub enum UuidField {
    Text(String),
    Ints(Vec<Option<i64>>),
    Other,
}

/// A lowercase hexadecimal digit.
pub open spec fn hex_char(n: int) -> char {
    seq!['0', '1', '2', '3', '4', '5', '6', '7', '8', '9', 'a', 'b', 'c', 'd', 'e', 'f'][n]
}

/// The last `digits` hexadecimal digits of `v`, most significant first.
pub open spec fn hex_of(v: nat, digits: nat) -> Seq<char>
    decreases digits,
{
    if digits == 0 {
        seq![]
    } else {
        hex_of(v / 16, (digits - 1) as nat).push(hex_char((v % 16) as int))
    }
}

/// The 128-bit value with `most` as its high half and `least` as its low.
pub open spec fn uuid_value(most: u64, least: u64) -> nat {
    most as nat * 0x1_0000_0000_0000_0000 + least as nat
}

/// The hyphenated lowercase form (8-4-4-4-12 digits) of a UUID.
pub open spec fn uuid_text(most: u64, least: u64) -> Seq<char> {
    let h = hex_of(uuid_value(most, least), 32);
    h.subrange(0, 8) + seq!['-'] + h.subrange(8, 12) + seq!['-'] + h.subrange(12, 16) + seq!['-']
        + h.subrange(16, 20) + seq!['-'] + h.subrange(20, 32)
}

/// `Uuid::from_u64_pair(most, least)` printed by `Display`. The uuid crate
/// builds the value `most << 64 | least` and prints it hyphenated in
/// lowercase; this claims that text.
#[verifier::external_body]
fn uuid_pair_text(most: u64, least: u64) -> (r: String)
    ensures
        r@ == uuid_text(most, least),
{
    uuid::Uuid::from_u64_pair(most, least).to_string()
}

/// `Uuid::new_v4()` printed by `Display`: a random version-4 UUID. Claimed
/// only that it is the hyphenated form of some value whose version digit is
/// 4; which value is left unsaid.
#[verifier::external_body]
fn random_uuid_text() -> (r: String)
    ensures
        exists|m: u64, l: u64| r@ == uuid_text(m, l),
        r@.len() == 36 && r@[14] == '4',
{
    uuid::Uuid::new_v4().to_string()
}

/// The high or low half of a UUID stored as four 32-bit integers.
pub open spec fn int_pair(a: i64, b: i64) -> u64 {
    ((a as u32 as u64) << 32u64) | (b as u32 as u64)
}

/// The four numbers of an integer-list UUID, when it has exactly four and
/// each is an integer.
pub open spec fn four_ints(v: Seq<Option<i64>>) -> Option<(i64, i64, i64, i64)> {
    if v.len() == 4 && v[0] is Some && v[1] is Some && v[2] is Some && v[3] is Some {
        Some((v[0]->Some_0, v[1]->Some_0, v[2]->Some_0, v[3]->Some_0))
    } else {
        None
    }
}

/// What `uuid_of` reads, when it reads text: the text form, or the UUID that
/// four integers spell (high half first).
pub open spec fn uuid_read(field: UuidField) -> Option<Seq<char>> {
    match field {
        UuidField::Text(s) => Some(s@),
        UuidField::Ints(v) => match four_ints(v@) {
            Some((a, b, c, d)) => Some(uuid_text(int_pair(a, b), int_pair(c, d))),
            None => None,
        },
        UuidField::Other => None,
    }
}

/// An entity's UUID: the `UUID` entry as text or as four integers; failing
/// that, a fresh random one when the entity has the old `UUIDLeast` entry;
/// else none.
pub fn uuid_of(field: &UuidField, has_least: bool) -> (r: Option<String>)
    ensures
        match uuid_read(*field) {
            Some(t) => r is Some && r->Some_0@ == t,
            None => if has_least {
                r is Some && r->Some_0@.len() == 36 && exists|m: u64, l: u64|
                    r->Some_0@ == uuid_text(m, l)
            } else {
                r is None
            },
        },
{
    match field {
        UuidField::Text(s) => {
            return Some(s.clone());
        },
        UuidField::Ints(v) => {
            if v.len() == 4 {
                if let (Some(a), Some(b), Some(c), Some(d)) = (v[0], v[1], v[2], v[3]) {
                    let most = ((a as u32 as u64) << 32u64) | (b as u32 as u64);
                    let least = ((c as u32 as u64) << 32u64) | (d as u32 as u64);
                    return Some(uuid_pair_text(most, least));
                }
            }
        },
        UuidField::Other => {},
    }
    if has_least {
        Some(random_uuid_text())
    } else {
        None
    }
}

/// The UUID an entity record gets: the one its NBT holds, else a fresh
/// random one.
pub fn entity_uuid(field: &UuidField, has_least: bool) -> (r: String)
    ensures
        match uuid_read(*field) {
            Some(t) => r@ == t,
            None => r@.len() == 36 && exists|m: u64, l: u64| r@ == uuid_text(m, l),
        },
{
    match uuid_of(field, has_least) {
        Some(u) => u,
        None => random_uuid_text(),
    }
}

} // verus!
