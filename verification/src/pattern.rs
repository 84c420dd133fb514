//! Weighted / percent block patterns for fill, brush, replace-with.
//!
//! Examples:
//! - `minecraft:stone` (100%)
//! - `50%stone,50%dirt`
//! - `50%minecraft:stone,50%minecraft:dirt`
//! - `3*stone,1*dirt`

use vstd::prelude::*;
use crate::blockstate::{compact, parse_state, BlockState, BlockStateView};
use crate::text::string_from;
use crate::text::{
    append, append_str, chars_of, has_char, int_text, join, join_chars, parse_in_range,
    parse_int_chars, push_int, split, split_chars, split_once, split_once_chars, string_of, trim,
    trim_chars, trimmed, views,
};

verus! {

/// `t` with `minecraft:` added when it names no namespace.
pub open spec fn with_ns(t: Seq<char>) -> Seq<char> {
    if t.contains(':') {
        t
    } else {
        "minecraft:"@ + t
    }
}

/// A block token of a pattern: trimmed, namespaced, then read as a state.
pub open spec fn parse_token(s: Seq<char>) -> Result<BlockStateView, Seq<char>> {
    let t = trim(s);
    if t.len() == 0 {
        Err("empty block in pattern"@)
    } else {
        parse_state(with_ns(t))
    }
}

/// One comma-separated part of a pattern (already trimmed and non-empty):
/// the weight and the block text, or the error text.
pub open spec fn part_weight(part: Seq<char>) -> Result<(u32, Seq<char>), Seq<char>> {
    match split_once(part, '%') {
        Some((w, rest)) => match parse_in_range(trim(w), false, 0, 0xffff_ffff) {
            None => Err("bad percent weight in `"@ + part + "`"@),
            Some(v) => if v == 0 {
                Err("zero weight in `"@ + part + "`"@)
            } else {
                Ok((v as u32, trim(rest)))
            },
        },
        None => match split_once(part, '*') {
            Some((w, rest)) => match parse_in_range(trim(w), false, 0, 0xffff_ffff) {
                None => Err("bad star weight in `"@ + part + "`"@),
                Some(v) => if v == 0 {
                    Err("zero weight in `"@ + part + "`"@)
                } else {
                    Ok((v as u32, trim(rest)))
                },
            },
            None => Ok((1u32, part)),
        },
    }
}

/// The entries read from the parts, left to right, skipping blank parts;
/// the first failing part gives the error.
pub open spec fn parse_entries(parts: Seq<Seq<char>>) -> Result<Seq<(BlockStateView, u32)>, Seq<char>>
    decreases parts.len(),
{
    if parts.len() == 0 {
        Ok(seq![])
    } else {
        match parse_entries(parts.drop_last()) {
            Err(e) => Err(e),
            Ok(acc) => {
                let part = trim(parts.last());
                if part.len() == 0 {
                    Ok(acc)
                } else {
                    match part_weight(part) {
                        Err(e) => Err(e),
                        Ok((w, b)) => match parse_token(b) {
                            Err(e) => Err(e),
                            Ok(state) => Ok(acc.push((state, w))),
                        },
                    }
                }
            },
        }
    }
}

/// Sum of the weights.
pub open spec fn weight_sum(es: Seq<(BlockStateView, u32)>) -> nat
    decreases es.len(),
{
    if es.len() == 0 {
        0
    } else {
        weight_sum(es.drop_last()) + es.last().1 as nat
    }
}

/// What `Pattern::parse` reads: the entries, or the error text.
pub open spec fn parse_pattern(input: Seq<char>) -> Result<Seq<(BlockStateView, u32)>, Seq<char>> {
    let t = trim(input);
    if t.len() == 0 {
        Err("empty pattern"@)
    } else if !t.contains(',') && !t.contains('%') && !t.contains('*') {
        match parse_token(t) {
            Err(e) => Err(e),
            Ok(b) => Ok(seq![(b, 1u32)]),
        }
    } else {
        match parse_entries(split(t, ',')) {
            Err(e) => Err(e),
            Ok(es) => if es.len() == 0 {
                Err("pattern has no entries"@)
            } else {
                Ok(es)
            },
        }
    }
}

/// Index of the entry that `slot` falls in, walking the weights in order;
/// the last entry when the slot runs past them.
pub open spec fn pick_index(weights: Seq<u32>, slot: int, i: int) -> int
    decreases weights.len() - i,
{
    if i >= weights.len() - 1 {
        weights.len() - 1
    } else if slot < weights[i] {
        i
    } else {
        pick_index(weights, slot - weights[i], i + 1)
    }
}

/// SplitMix64-style mix of block coordinates (deterministic, not crypto).
pub open spec fn hash_coords_spec(x: i32, y: i32, z: i32) -> u64 {
    let n0 = (x as u64).wrapping_mul(0x9E3779B97F4A7C15u64).wrapping_add(
        (y as u64).wrapping_mul(0xC2B2AE3D27D4EB4Fu64),
    ).wrapping_add((z as u64).wrapping_mul(0x165667B19E3779F9u64)).wrapping_add(
        0x85EBCA77C2B2AE63u64,
    );
    let n1 = (n0 ^ (n0 >> 30u64)).wrapping_mul(0xBF58476D1CE4E5B9u64);
    let n2 = (n1 ^ (n1 >> 27u64)).wrapping_mul(0x94D049BB133111EBu64);
    n2 ^ (n2 >> 31u64)
}

/// Weighted list of block states.
#[derive(Clone, Debug)]
pub struct Pattern {
    entries: Vec<(BlockState, u32)>,
    total: u32,
}

impl Pattern {
    /// The entries as views.
    pub closed spec fn entries_view(&self) -> Seq<(BlockStateView, u32)> {
        self.entries@.map_values(|e: (BlockState, u32)| (e.0@, e.1))
    }

    /// At least one entry, and `total` is the sum of the weights.
    pub closed spec fn wf(&self) -> bool {
        &&& self.entries@.len() >= 1
        &&& self.total as nat == weight_sum(self.entries_view())
        &&& self.total > 0
    }

    pub closed spec fn total_view(&self) -> u32 {
        self.total
    }

    /// What well-formedness means to a caller: at least one entry, and a
    /// positive total that is the sum of the weights.
    pub proof fn lemma_wf(&self)
        ensures
            self.wf() <==> (self.entries_view().len() >= 1 && self.total_view() as nat == weight_sum(
                self.entries_view(),
            ) && self.total_view() > 0),
    {
    }

    /// One entry of weight 1.
    pub fn single(block: BlockState) -> (r: Self)
        ensures
            r.wf(),
            r.entries_view() == seq![(block@, 1u32)],
            forall|x: i32, y: i32, z: i32| #[trigger] r.pick_view(x, y, z) == block@,
    {
        let ghost bv = block@;
        let r = Pattern { entries: vec![(block, 1u32)], total: 1 };
        assert(r.entries_view() =~= seq![(bv, 1u32)]);
        assert(r.entries_view().drop_last() =~= Seq::<(BlockStateView, u32)>::empty());
        assert(weight_sum(r.entries_view().drop_last()) == 0);
        assert(weight_sum(r.entries_view()) == 1);
        r
    }

    /// Sum of the weights.
    pub fn total(&self) -> (r: u32)
        ensures
            r == self.total_view(),
    {
        self.total
    }

    pub fn entries(&self) -> (r: &[(BlockState, u32)])
        ensures
            r@.map_values(|e: (BlockState, u32)| (e.0@, e.1)) == self.entries_view(),
    {
        self.entries.as_slice()
    }

    #[verifier::loop_isolation(false)]
    fn parse_weighted(input: &str) -> (r: Result<(Vec<(BlockState, u32)>, u128), String>)
        ensures
            match r {
                Ok((es, t)) => parse_pattern(input@) == Ok::<Seq<(BlockStateView, u32)>, Seq<char>>(
                    es@.map_values(|e: (BlockState, u32)| (e.0@, e.1)),
                ) && t as nat == weight_sum(es@.map_values(|e: (BlockState, u32)| (e.0@, e.1)))
                    && es@.len() >= 1 && t > 0,
                Err(e) => parse_pattern(input@) == Err::<Seq<(BlockStateView, u32)>, Seq<char>>(
                    e@,
                ),
            },
    {
        let t = trimmed(input);
        if t.len() == 0 {
            return Err(string_of(&chars_of("empty pattern")));
        }
        if !has_char(&t, ',') && !has_char(&t, '%') && !has_char(&t, '*') {
            return match parse_block_token(&t) {
                Err(e) => Err(e),
                Ok(b) => {
                    let ghost bv = b@;
                    let es = vec![(b, 1u32)];
                    assert(es@.map_values(|e: (BlockState, u32)| (e.0@, e.1)) =~= seq![(bv, 1u32)]);
                    assert(seq![(bv, 1u32)].drop_last() =~= Seq::<(BlockStateView, u32)>::empty());
                    assert(weight_sum(Seq::<(BlockStateView, u32)>::empty()) == 0);
                    assert(seq![(bv, 1u32)].last() == (bv, 1u32));
                    assert(weight_sum(seq![(bv, 1u32)]) == weight_sum(seq![(bv, 1u32)].drop_last()) + 1);
                    assert(weight_sum(seq![(bv, 1u32)]) == 1);
                    Ok((es, 1u128))
                },
            };
        }
        let parts = split_chars(&t, ',');
        let mut entries: Vec<(BlockState, u32)> = Vec::new();
        let mut total: u128 = 0;
        let mut i: usize = 0;
        assert(views(parts@).take(0) =~= Seq::<Seq<char>>::empty());
        assert(entries@.map_values(|e: (BlockState, u32)| (e.0@, e.1)) =~= Seq::<(BlockStateView, u32)>::empty());
        while i < parts.len()
            invariant
                i <= parts@.len(),
                parse_entries(views(parts@).take(i as int)) == Ok::<
                    Seq<(BlockStateView, u32)>,
                    Seq<char>,
                >(entries@.map_values(|e: (BlockState, u32)| (e.0@, e.1))),
                total as nat == weight_sum(entries@.map_values(|e: (BlockState, u32)| (e.0@, e.1))),
                total <= 0xffff_ffff * i,
                forall|j: int| 0 <= j < entries@.len() ==> #[trigger] entries@[j].1 >= 1,
            decreases parts.len() - i,
        {
            let ghost pv = views(parts@);
            assert(pv.take(i + 1).drop_last() == pv.take(i as int));
            assert(pv.take(i + 1).last() == parts@[i as int]@);
            let part = trim_chars(&parts[i]);
            if part.len() != 0 {
                match part_weight_exec(&part) {
                    Err(e) => {
                        proof {
                            lemma_entries_err_prefix(pv, i as int, e@);
                        }
                        return Err(e);
                    },
                    Ok((w, b)) => match parse_block_token(&b) {
                        Err(e) => {
                            proof {
                                lemma_entries_err_prefix(pv, i as int, e@);
                            }
                            return Err(e);
                        },
                        Ok(state) => {
                            let ghost before = entries@.map_values(
                                |e: (BlockState, u32)| (e.0@, e.1),
                            );
                            let ghost sv = state@;
                            entries.push((state, w));
                            assert(entries@.map_values(|e: (BlockState, u32)| (e.0@, e.1))
                                =~= before.push((sv, w)));
                            assert(before.push((sv, w)).drop_last() =~= before);
                            total = total + w as u128;
                        },
                    },
                }
            }
            i += 1;
        }
        assert(views(parts@).take(parts@.len() as int) == views(parts@));
        if entries.len() == 0 {
            return Err(string_of(&chars_of("pattern has no entries")));
        }
        let ghost ev = entries@.map_values(|e: (BlockState, u32)| (e.0@, e.1));
        assert(parse_pattern(input@) == Ok::<Seq<(BlockStateView, u32)>, Seq<char>>(ev));
        assert(weight_sum(ev) >= ev.last().1) by {
            assert(ev.last().1 == entries@[entries@.len() - 1].1);
        }
        Ok((entries, total))
    }

    /// Parses a pattern. The sum of the weights must fit in `u32`, the type
    /// the total is kept in; `parse_checked` tests that first.
    pub fn parse(input: &str) -> (r: Result<Self, String>)
        requires
            parse_pattern(input@) is Ok ==> weight_sum(parse_pattern(input@)->Ok_0)
                <= 0xffff_ffff,
        ensures
            match r {
                Ok(p) => p.wf() && parse_pattern(input@) == Ok::<
                    Seq<(BlockStateView, u32)>,
                    Seq<char>,
                >(p.entries_view()) && p.total_view() as nat == weight_sum(p.entries_view()),
                Err(e) => parse_pattern(input@) == Err::<Seq<(BlockStateView, u32)>, Seq<char>>(
                    e@,
                ),
            },
    {
        match Self::parse_weighted(input) {
            Err(e) => Err(e),
            Ok((entries, total)) => {
                let p = Pattern { entries, total: total as u32 };
                assert(p.entries_view() =~= entries@.map_values(|e: (BlockState, u32)| (e.0@, e.1)));
                Ok(p)
            },
        }
    }

    /// Parses a pattern, refusing one whose weights add up past `u32`.
    pub fn parse_checked(input: &str) -> (r: Result<Self, String>)
        ensures
            match parse_pattern(input@) {
                Ok(es) => if weight_sum(es) <= 0xffff_ffff {
                    r matches Ok(p) && p.wf() && p.entries_view() == es && p.total_view() as nat
                        == weight_sum(es)
                } else {
                    r is Err && r->Err_0@ == "pattern total weight does not fit in u32"@
                },
                Err(e) => r is Err && r->Err_0@ == e,
            },
    {
        match Self::parse_weighted(input) {
            Err(e) => Err(e),
            Ok((entries, total)) => {
                if total > 0xffff_ffff {
                    return Err(string_from("pattern total weight does not fit in u32"));
                }
                let p = Pattern { entries, total: total as u32 };
                assert(p.entries_view() =~= entries@.map_values(|e: (BlockState, u32)| (e.0@, e.1)));
                Ok(p)
            },
        }
    }

    /// The state a well-formed pattern picks at a position.
    pub closed spec fn pick_view(&self, x: i32, y: i32, z: i32) -> BlockStateView {
        if self.entries_view().len() == 1 {
            self.entries_view()[0].0
        } else {
            self.entries_view()[pick_index(
                self.entries_view().map_values(|e: (BlockStateView, u32)| e.1),
                (hash_coords_spec(x, y, z) % (self.total_view() as u64)) as int,
                0,
            )].0
        }
    }

    /// Deterministic pick from world coords (stable across runs): the
    /// coordinate hash modulo the total weight selects an entry by weight.
    pub fn pick_at(&self, x: i32, y: i32, z: i32) -> (r: &BlockState)
        requires
            self.wf(),
        ensures
            r@ == self.pick_view(x, y, z),
            self.entries_view().len() == 1 ==> r@ == self.entries_view()[0].0,
            self.entries_view().len() > 1 ==> r@ == self.entries_view()[pick_index(
                self.entries_view().map_values(|e: (BlockStateView, u32)| e.1),
                (hash_coords_spec(x, y, z) % (self.total_view() as u64)) as int,
                0,
            )].0,
    {
        if self.entries.len() == 1 {
            return &self.entries[0].0;
        }
        let ghost ws = self.entries_view().map_values(|e: (BlockStateView, u32)| e.1);
        assert(forall|j: int| 0 <= j < self.entries@.len() ==> ws[j] == #[trigger] self.entries@[j].1);
        let mut slot: u64 = hash_coords(x, y, z) % (self.total as u64);
        let ghost slot0 = slot as int;
        let mut i: usize = 0;
        while i + 1 < self.entries.len() && slot >= self.entries[i].1 as u64
            invariant
                self.entries@.len() >= 2,
                i + 1 <= self.entries@.len(),
                ws.len() == self.entries@.len(),
                forall|j: int| 0 <= j < self.entries@.len() ==> ws[j] == #[trigger] self.entries@[j].1,
                pick_index(ws, slot0, 0) == pick_index(ws, slot as int, i as int),
            decreases self.entries.len() - i,
        {
            slot = slot - self.entries[i].1 as u64;
            i += 1;
        }
        &self.entries[i].0
    }

    /// `compact` for one entry; otherwise `pct%compact` parts joined by
    /// commas, `pct = weight * 100 / total`.
    pub fn describe(&self) -> (r: String)
        requires
            self.wf(),
        ensures
            r@ == describe_spec(self.entries_view(), self.total_view()),
    {
        if self.entries.len() == 1 {
            return self.entries[0].0.to_compact();
        }
        let mut parts: Vec<Vec<char>> = Vec::new();
        let mut i: usize = 0;
        while i < self.entries.len()
            invariant
                self.wf(),
                i <= self.entries@.len(),
                views(parts@) == self.entries_view().map_values(
                    |e: (BlockStateView, u32)| describe_part(e, self.total_view()),
                ).take(i as int),
            decreases self.entries.len() - i,
        {
            let pct = (self.entries[i].1 as u64 * 100) / (self.total as u64);
            let mut t: Vec<char> = Vec::new();
            push_int(&mut t, pct as i64);
            t.push('%');
            let c = self.entries[i].0.compact_chars();
            append(&mut t, &c);
            let ghost old_parts = parts@;
            parts.push(t);
            assert(views(parts@) =~= views(old_parts).push(t@));
            assert(self.entries_view()[i as int] == (self.entries@[i as int].0@, self.entries@[i as int].1));
            assert(t@ == describe_part(self.entries_view()[i as int], self.total_view()));
            i += 1;
            assert(views(parts@) =~= self.entries_view().map_values(
                |e: (BlockStateView, u32)| describe_part(e, self.total_view()),
            ).take(i as int));
        }
        assert(self.entries_view().map_values(
            |e: (BlockStateView, u32)| describe_part(e, self.total_view()),
        ).take(self.entries@.len() as int) =~= self.entries_view().map_values(
            |e: (BlockStateView, u32)| describe_part(e, self.total_view()),
        ));
        let j = join_chars(&parts, ',');
        string_of(&j)
    }
}

/// One `pct%block` part of a description.
pub open spec fn describe_part(e: (BlockStateView, u32), total: u32) -> Seq<char> {
    int_text((e.1 as int * 100) / (total as int)) + seq!['%'] + compact(e.0)
}

/// What `describe` prints.
pub open spec fn describe_spec(es: Seq<(BlockStateView, u32)>, total: u32) -> Seq<char> {
    if es.len() == 1 {
        compact(es[0].0)
    } else {
        join(es.map_values(|e: (BlockStateView, u32)| describe_part(e, total)), ',')
    }
}

proof fn lemma_entries_err_prefix(parts: Seq<Seq<char>>, i: int, e: Seq<char>)
    requires
        0 <= i < parts.len(),
        parse_entries(parts.take(i)) is Ok,
        trim(parts[i]).len() > 0,
        match part_weight(trim(parts[i])) {
            Err(x) => x == e,
            Ok((w, b)) => parse_token(b) == Err::<BlockStateView, Seq<char>>(e),
        },
    ensures
        parse_entries(parts) == Err::<Seq<(BlockStateView, u32)>, Seq<char>>(e),
    decreases parts.len(),
{
    if parts.len() == i + 1 {
        assert(parts.drop_last() == parts.take(i));
    } else {
        assert(parts.drop_last().take(i) == parts.take(i));
        lemma_entries_err_prefix(parts.drop_last(), i, e);
    }
}

/// The weight and block text of one trimmed, non-empty part.
fn part_weight_exec(part: &Vec<char>) -> (r: Result<(u32, Vec<char>), String>)
    ensures
        match r {
            Ok((w, b)) => part_weight(part@) == Ok::<(u32, Seq<char>), Seq<char>>((w, b@)),
            Err(e) => part_weight(part@) == Err::<(u32, Seq<char>), Seq<char>>(e@),
        },
{
    match split_once_chars(part, '%') {
        Some((w, rest)) => {
            let wt = trim_chars(&w);
            match parse_int_chars(&wt, false, 0, 0xffff_ffff) {
                None => {
                    let mut m = chars_of("bad percent weight in `");
                    append(&mut m, part);
                    append_str(&mut m, "`");
                    Err(string_of(&m))
                },
                Some(v) => {
                    if v == 0 {
                        let mut m = chars_of("zero weight in `");
                        append(&mut m, part);
                        append_str(&mut m, "`");
                        Err(string_of(&m))
                    } else {
                        Ok((v as u32, trim_chars(&rest)))
                    }
                },
            }
        },
        None => match split_once_chars(part, '*') {
            Some((w, rest)) => {
                let wt = trim_chars(&w);
                match parse_int_chars(&wt, false, 0, 0xffff_ffff) {
                    None => {
                        let mut m = chars_of("bad star weight in `");
                        append(&mut m, part);
                        append_str(&mut m, "`");
                        Err(string_of(&m))
                    },
                    Some(v) => {
                        if v == 0 {
                            let mut m = chars_of("zero weight in `");
                            append(&mut m, part);
                            append_str(&mut m, "`");
                            Err(string_of(&m))
                        } else {
                            Ok((v as u32, trim_chars(&rest)))
                        }
                    },
                }
            },
            None => {
                let mut p = Vec::new();
                append(&mut p, part);
                assert(p@ =~= part@);
                Ok((1u32, p))
            },
        },
    }
}

/// Reads one block token (namespace `minecraft:` by default).
pub fn parse_block_token(s: &[char]) -> (r: Result<BlockState, String>)
    ensures
        match r {
            Ok(b) => parse_token(s@) == Ok::<BlockStateView, Seq<char>>(b@),
            Err(e) => parse_token(s@) == Err::<BlockStateView, Seq<char>>(e@),
        },
{
    let t = trim_chars(s);
    if t.len() == 0 {
        return Err(string_of(&chars_of("empty block in pattern")));
    }
    let full = if has_char(&t, ':') {
        t
    } else {
        let mut f = chars_of("minecraft:");
        append(&mut f, &t);
        f
    };
    let text = string_of(&full);
    BlockState::parse(text.as_str())
}

/// Mixes block coordinates into a 64-bit hash.
pub fn hash_coords(x: i32, y: i32, z: i32) -> (r: u64)
    ensures
        r == hash_coords_spec(x, y, z),
{
    let mut n = (x as u64).wrapping_mul(0x9E3779B97F4A7C15u64).wrapping_add(
        (y as u64).wrapping_mul(0xC2B2AE3D27D4EB4Fu64),
    ).wrapping_add((z as u64).wrapping_mul(0x165667B19E3779F9u64)).wrapping_add(
        0x85EBCA77C2B2AE63u64,
    );
    n = (n ^ (n >> 30u64)).wrapping_mul(0xBF58476D1CE4E5B9u64);
    n = (n ^ (n >> 27u64)).wrapping_mul(0x94D049BB133111EBu64);
    n ^ (n >> 31u64)
}



/// The weights of the first `i` entries, summed, meet the next entry's
/// weight.
proof fn lemma_weight_sum_take(es: Seq<(BlockStateView, u32)>, i: int)
    requires
        0 <= i < es.len(),
    ensures
        weight_sum(es.take(i + 1)) == weight_sum(es.take(i)) + es[i].1,
{
    assert(es.take(i + 1).drop_last() =~= es.take(i));
}

/// Walking the weights from entry `i` with `slot` left over lands in the
/// entry whose cumulative weight range holds the whole offset.
proof fn lemma_pick_from(es: Seq<(BlockStateView, u32)>, slot: int, i: int)
    requires
        0 <= i < es.len(),
        0 <= slot,
        weight_sum(es.take(i)) + slot < weight_sum(es),
    ensures
        i <= pick_index(es.map_values(|e: (BlockStateView, u32)| e.1), slot, i) < es.len(),
        weight_sum(es.take(pick_index(es.map_values(|e: (BlockStateView, u32)| e.1), slot, i)))
            <= weight_sum(es.take(i)) + slot,
        weight_sum(es.take(i)) + slot < weight_sum(
            es.take(pick_index(es.map_values(|e: (BlockStateView, u32)| e.1), slot, i) + 1),
        ),
    decreases es.len() - i,
{
    let ws = es.map_values(|e: (BlockStateView, u32)| e.1);
    lemma_weight_sum_take(es, i);
    assert(ws[i] == es[i].1);
    if i >= ws.len() - 1 {
        assert(es.take(i + 1) =~= es);
    } else if slot < ws[i] {
    } else {
        lemma_pick_from(es, slot - ws[i], i + 1);
    }
}

/// A pattern picks, for a slot below its total weight, the entry whose
/// cumulative weight range holds the slot: entry `i` takes the slots from
/// the sum of the weights before it up to that sum plus its own weight,
/// in the order the entries were written.
pub proof fn law_pick_in_weight_range(es: Seq<(BlockStateView, u32)>, slot: int)
    requires
        es.len() >= 1,
        0 <= slot < weight_sum(es),
    ensures
        0 <= pick_index(es.map_values(|e: (BlockStateView, u32)| e.1), slot, 0) < es.len(),
        weight_sum(es.take(pick_index(es.map_values(|e: (BlockStateView, u32)| e.1), slot, 0))) <= slot,
        slot < weight_sum(es.take(pick_index(es.map_values(|e: (BlockStateView, u32)| e.1), slot, 0) + 1)),
{
    assert(es.take(0) =~= Seq::<(BlockStateView, u32)>::empty());
    lemma_pick_from(es, slot, 0);
}

impl Pattern {
    /// The state a pattern places at a position is that of the entry whose
    /// cumulative weight range holds the position's slot (its coordinate
    /// hash modulo the total weight).
    pub proof fn law_pick_at_slot(&self, x: i32, y: i32, z: i32)
        requires
            self.wf(),
        ensures
            exists|i: int|
                0 <= i < self.entries_view().len() && self.pick_view(x, y, z) == self.entries_view()[i].0
                    && weight_sum(self.entries_view().take(i)) <= hash_coords_spec(x, y, z) % (
                self.total_view() as u64) < weight_sum(self.entries_view().take(i + 1)),
    {
        let es = self.entries_view();
        let slot = (hash_coords_spec(x, y, z) % (self.total_view() as u64)) as int;
        assert(0 <= slot < weight_sum(es));
        law_pick_in_weight_range(es, slot);
        let i = pick_index(es.map_values(|e: (BlockStateView, u32)| e.1), slot, 0);
        if es.len() == 1 {
            assert(es.take(0) =~= Seq::<(BlockStateView, u32)>::empty());
            assert(es.take(1) =~= es);
            assert(0 <= 0 < es.len() && self.pick_view(x, y, z) == es[0].0 && weight_sum(es.take(0)) <= slot
                < weight_sum(es.take(1)));
        } else {
            assert(self.pick_view(x, y, z) == es[i].0);
        }
    }
}

} // verus!

