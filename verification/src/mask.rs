//! Block masks for brush / fill / replace.
//!
//! Grammar (no spaces required):
//! - `air` / `minecraft:air` — any air-like
//! - `!air` — not air-like
//! - `#solid` — not air-like (alias)
//! - `#existing` — not air-like
//! - exact block: `minecraft:stone` or `stone`
//! - OR: `a|b|c`
//! - AND: `a&b`
//! - NOT: `!expr`
//! - include list: `stone,dirt` (= OR)
//!
//! Also: `--mask-exclude` is applied as `base & !(e1|e2|…)`.

use vstd::prelude::*;
use crate::blockstate::{compact, is_air_like_view, parse_state, BlockState, BlockStateView};
use crate::ops::{matches_filter, matches_filter_spec};
use crate::text::{
    append, chars_of, eq_str, has_char, lower, lower_chars, slice_vec, split, split_chars,
    starts_with_str, string_of, trim, trim_chars, trimmed, views,
};

verus! {

/// A mask over views.
pub enum MaskView {
    Any,
    AirLike,
    Solid,
    Exact(BlockStateView),
    Not(Box<MaskView>),
    And(Box<MaskView>, Box<MaskView>),
    Or(Box<MaskView>, Box<MaskView>),
}

#[derive(Debug)]
pub enum Mask {
    /// Always true.
    Any,
    AirLike,
    Solid,
    Exact(BlockState),
    Not(Box<Mask>),
    And(Box<Mask>, Box<Mask>),
    Or(Box<Mask>, Box<Mask>),
}

impl Mask {
    pub open spec fn view_spec(&self) -> MaskView
        decreases self,
    {
        match self {
            Mask::Any => MaskView::Any,
            Mask::AirLike => MaskView::AirLike,
            Mask::Solid => MaskView::Solid,
            Mask::Exact(b) => MaskView::Exact(b@),
            Mask::Not(m) => MaskView::Not(Box::new(m.view_spec())),
            Mask::And(a, b) => MaskView::And(Box::new(a.view_spec()), Box::new(b.view_spec())),
            Mask::Or(a, b) => MaskView::Or(Box::new(a.view_spec()), Box::new(b.view_spec())),
        }
    }
}

impl View for Mask {
    type V = MaskView;

    open spec fn view(&self) -> MaskView {
        self.view_spec()
    }
}

/// Whether a mask accepts a block.
pub open spec fn mask_matches(m: MaskView, b: BlockStateView) -> bool
    decreases m,
{
    match m {
        MaskView::Any => true,
        MaskView::AirLike => is_air_like_view(b),
        MaskView::Solid => !is_air_like_view(b),
        MaskView::Exact(f) => matches_filter_spec(b, f),
        MaskView::Not(inner) => !mask_matches(*inner, b),
        MaskView::And(x, y) => mask_matches(*x, b) && mask_matches(*y, b),
        MaskView::Or(x, y) => mask_matches(*x, b) || mask_matches(*y, b),
    }
}

/// Text of a mask as `describe` prints it.
pub open spec fn describe_mask(m: MaskView) -> Seq<char>
    decreases m,
{
    match m {
        MaskView::Any => "*"@,
        MaskView::AirLike => "air"@,
        MaskView::Solid => "#solid"@,
        MaskView::Exact(b) => compact(b),
        MaskView::Not(inner) => "!"@ + describe_mask(*inner),
        MaskView::And(x, y) => "("@ + describe_mask(*x) + "&"@ + describe_mask(*y) + ")"@,
        MaskView::Or(x, y) => "("@ + describe_mask(*x) + "|"@ + describe_mask(*y) + ")"@,
    }
}

/// Pieces of `s` between top-level (outside parentheses) separators,
/// scanning from `i` with the current piece starting at `start`.
pub open spec fn split_top_from(s: Seq<char>, sep: char, i: int, start: int, depth: int) -> Seq<
    Seq<char>,
>
    decreases s.len() - i,
{
    if i >= s.len() || i < 0 {
        seq![s.subrange(start, s.len() as int)]
    } else if s[i] == '(' {
        split_top_from(s, sep, i + 1, start, depth + 1)
    } else if s[i] == ')' {
        split_top_from(s, sep, i + 1, start, depth - 1)
    } else if s[i] == sep && depth == 0 {
        seq![s.subrange(start, i)] + split_top_from(s, sep, i + 1, i + 1, 0)
    } else {
        split_top_from(s, sep, i + 1, start, depth)
    }
}

/// Pieces of `s` between separators that are outside parentheses.
pub open spec fn split_top(s: Seq<char>, sep: char) -> Seq<Seq<char>> {
    split_top_from(s, sep, 0, 0, 0)
}

pub proof fn lemma_split_top_from(s: Seq<char>, sep: char, i: int, start: int, depth: int)
    requires
        0 <= start <= i <= s.len(),
    ensures
        split_top_from(s, sep, i, start, depth).len() >= 1,
        forall|k: int|
            0 <= k < split_top_from(s, sep, i, start, depth).len() ==> (#[trigger] split_top_from(
                s,
                sep,
                i,
                start,
                depth,
            )[k]).len() <= s.len() - start,
        split_top_from(s, sep, i, start, depth).len() > 1 ==> forall|k: int|
            0 <= k < split_top_from(s, sep, i, start, depth).len() ==> (#[trigger] split_top_from(
                s,
                sep,
                i,
                start,
                depth,
            )[k]).len() < s.len() - start,
    decreases s.len() - i,
{
    if i < s.len() {
        if s[i] == '(' {
            lemma_split_top_from(s, sep, i + 1, start, depth + 1);
        } else if s[i] == ')' {
            lemma_split_top_from(s, sep, i + 1, start, depth - 1);
        } else if s[i] == sep && depth == 0 {
            lemma_split_top_from(s, sep, i + 1, i + 1, 0);
            let rest = split_top_from(s, sep, i + 1, i + 1, 0);
            let all = split_top_from(s, sep, i, start, depth);
            assert forall|k: int| 0 <= k < all.len() implies (#[trigger] all[k]).len() < s.len()
                - start by {
                if k > 0 {
                    assert(all[k] == rest[k - 1]);
                }
            }
        } else {
            lemma_split_top_from(s, sep, i + 1, start, depth);
        }
    }
}

pub proof fn lemma_split_top(s: Seq<char>, sep: char)
    ensures
        split_top(s, sep).len() >= 1,
        forall|k: int|
            0 <= k < split_top(s, sep).len() ==> (#[trigger] split_top(s, sep)[k]).len()
                <= s.len(),
        split_top(s, sep).len() > 1 ==> forall|k: int|
            0 <= k < split_top(s, sep).len() ==> (#[trigger] split_top(s, sep)[k]).len()
                < s.len(),
{
    lemma_split_top_from(s, sep, 0, 0, 0);
}

/// An atom: `*`/`any`, `#solid`/`#existing`, `air`, or a block state
/// (namespaced `minecraft:` unless it has a `:` or starts with `#`).
pub open spec fn parse_atom_spec(s0: Seq<char>) -> Result<MaskView, Seq<char>> {
    let s = trim(s0);
    if s == "*"@ || lower(s) == "any"@ {
        Ok(MaskView::Any)
    } else if s == "#solid"@ || s == "#existing"@ {
        Ok(MaskView::Solid)
    } else if s == "air"@ || s == "minecraft:air"@ {
        Ok(MaskView::AirLike)
    } else {
        let full = if s.contains(':') || (s.len() > 0 && s[0] == '#') {
            s
        } else {
            "minecraft:"@ + s
        };
        match parse_state(full) {
            Err(e) => Err(e),
            Ok(b) => if is_air_like_view(b) {
                Ok(MaskView::AirLike)
            } else {
                Ok(MaskView::Exact(b))
            },
        }
    }
}

/// The trimmed, non-empty pieces of a comma list.
pub open spec fn list_items(parts: Seq<Seq<char>>) -> Seq<Seq<char>>
    decreases parts.len(),
{
    if parts.len() == 0 {
        seq![]
    } else {
        let prev = list_items(parts.drop_last());
        let t = trim(parts.last());
        if t.len() == 0 {
            prev
        } else {
            prev.push(t)
        }
    }
}

/// The first `n` list items joined left to right with `Or`.
pub open spec fn list_fold(items: Seq<Seq<char>>, n: nat) -> Result<MaskView, Seq<char>>
    decreases n,
{
    if n <= 1 {
        parse_atom_spec(items[0])
    } else {
        match list_fold(items, (n - 1) as nat) {
            Err(e) => Err(e),
            Ok(acc) => match parse_atom_spec(items[n - 1]) {
                Err(e) => Err(e),
                Ok(m) => Ok(MaskView::Or(Box::new(acc), Box::new(m))),
            },
        }
    }
}

/// `!x`, a comma list of atoms, or an atom.
pub open spec fn parse_unary_spec(s0: Seq<char>) -> Result<MaskView, Seq<char>>
    decreases s0.len(),
{
    let s = trim(s0);
    proof {
        crate::text::lemma_trim_start_props(s0);
        crate::text::lemma_trim_end_props(crate::text::trim_start(s0));
    }
    if s.len() == 0 {
        Err("empty mask atom"@)
    } else if s[0] == '!' {
        match parse_unary_spec(s.skip(1)) {
            Err(e) => Err(e),
            Ok(m) => Ok(MaskView::Not(Box::new(m))),
        }
    } else if s.contains(',') && !s.contains('|') && !s.contains('&') {
        let items = list_items(split(s, ','));
        if items.len() == 0 {
            Err("empty mask list"@)
        } else {
            list_fold(items, items.len())
        }
    } else {
        parse_atom_spec(s)
    }
}

/// The first `n` `&`-pieces joined left to right with `And`.
pub open spec fn and_fold(s: Seq<char>, n: nat) -> Result<MaskView, Seq<char>>
    decreases n,
{
    let parts = split_top(s, '&');
    if n <= 1 || parts.len() <= 1 {
        parse_unary_spec(parts[0])
    } else if n > parts.len() {
        and_fold(s, parts.len())
    } else {
        match and_fold(s, (n - 1) as nat) {
            Err(e) => Err(e),
            Ok(acc) => match parse_unary_spec(parts[n - 1]) {
                Err(e) => Err(e),
                Ok(m) => Ok(MaskView::And(Box::new(acc), Box::new(m))),
            },
        }
    }
}

/// `a&b&...`.
pub open spec fn and_chain_spec(s: Seq<char>) -> Result<MaskView, Seq<char>>
{
    let parts = split_top(s, '&');
    and_fold(s, parts.len())
}

/// A `|`-piece: a leading `!` negates the whole `&` chain after it (so `!`
/// binds looser than `&` and tighter than `|`); else the `&` chain.
pub open spec fn parse_and_spec(s0: Seq<char>) -> Result<MaskView, Seq<char>>
    decreases s0.len(),
{
    let s = trim(s0);
    proof {
        crate::text::lemma_trim_start_props(s0);
        crate::text::lemma_trim_end_props(crate::text::trim_start(s0));
    }
    if s.len() > 0 && s[0] == '!' {
        match parse_and_spec(s.skip(1)) {
            Err(e) => Err(e),
            Ok(m) => Ok(MaskView::Not(Box::new(m))),
        }
    } else {
        and_chain_spec(s0)
    }
}

/// The first `n` `|`-pieces joined left to right with `Or`.
pub open spec fn or_fold(s: Seq<char>, n: nat) -> Result<MaskView, Seq<char>>
    decreases n,
{
    let parts = split_top(s, '|');
    if n <= 1 || parts.len() <= 1 {
        parse_and_spec(parts[0])
    } else if n > parts.len() {
        or_fold(s, parts.len())
    } else {
        match or_fold(s, (n - 1) as nat) {
            Err(e) => Err(e),
            Ok(acc) => match parse_and_spec(parts[n - 1]) {
                Err(e) => Err(e),
                Ok(m) => Ok(MaskView::Or(Box::new(acc), Box::new(m))),
            },
        }
    }
}

/// `a|b|...`.
pub open spec fn parse_or_spec(s: Seq<char>) -> Result<MaskView, Seq<char>>
{
    let parts = split_top(s, '|');
    or_fold(s, parts.len())
}

/// What `Mask::parse` reads: blank input is `Any`.
pub open spec fn parse_mask(input: Seq<char>) -> Result<MaskView, Seq<char>> {
    let s = trim(input);
    if s.len() == 0 {
        Ok(MaskView::Any)
    } else {
        parse_or_spec(s)
    }
}

/// Splits at separators outside parentheses.
pub fn split_top_chars(s: &[char], sep: char) -> (out: Vec<Vec<char>>)
    requires
        sep != '(' && sep != ')',
    ensures
        views(out@) == split_top(s@, sep),
{
    let mut out: Vec<Vec<char>> = Vec::new();
    let mut start: usize = 0;
    let mut depth: i128 = 0;
    let mut i: usize = 0;
    while i < s.len()
        invariant
            sep != '(' && sep != ')',
            start <= i <= s@.len(),
            -(i as int) <= depth <= i,
            views(out@) + split_top_from(s@, sep, i as int, start as int, depth as int)
                == split_top(s@, sep),
        decreases s.len() - i,
    {
        let c = s[i];
        if c == '(' {
            depth += 1;
        } else if c == ')' {
            depth -= 1;
        } else if c == sep && depth == 0 {
            let piece = slice_vec(s, start, i);
            let ghost before = views(out@);
            out.push(piece);
            assert(views(out@) =~= before.push(piece@));
            assert(views(out@) + split_top_from(s@, sep, i + 1, i + 1, 0) =~= before
                + split_top_from(s@, sep, i as int, start as int, depth as int));
            start = i + 1;
        }
        i += 1;
    }
    let last = slice_vec(s, start, s.len());
    let ghost before = views(out@);
    out.push(last);
    assert(views(out@) =~= before + split_top_from(s@, sep, i as int, start as int, depth as int));
    out
}

fn parse_atom(s0: &[char]) -> (r: Result<Mask, String>)
    ensures
        match r {
            Ok(m) => parse_atom_spec(s0@) == Ok::<MaskView, Seq<char>>(m@),
            Err(e) => parse_atom_spec(s0@) == Err::<MaskView, Seq<char>>(e@),
        },
{
    let s = trim_chars(s0);
    let low = lower_chars(&s);
    if eq_str(&s, "*") || eq_str(&low, "any") {
        return Ok(Mask::Any);
    }
    if eq_str(&s, "#solid") || eq_str(&s, "#existing") {
        return Ok(Mask::Solid);
    }
    if eq_str(&s, "air") || eq_str(&s, "minecraft:air") {
        return Ok(Mask::AirLike);
    }
    let full = if has_char(&s, ':') || (s.len() > 0 && s[0] == '#') {
        s
    } else {
        let mut f = chars_of("minecraft:");
        append(&mut f, &s);
        f
    };
    let text = string_of(&full);
    match BlockState::parse(text.as_str()) {
        Err(e) => Err(e),
        Ok(b) => {
            if b.is_air_like() {
                Ok(Mask::AirLike)
            } else {
                Ok(Mask::Exact(b))
            }
        },
    }
}

#[verifier::loop_isolation(false)]
fn parse_unary(s0: &[char]) -> (r: Result<Mask, String>)
    ensures
        match r {
            Ok(m) => parse_unary_spec(s0@) == Ok::<MaskView, Seq<char>>(m@),
            Err(e) => parse_unary_spec(s0@) == Err::<MaskView, Seq<char>>(e@),
        },
    decreases s0@.len(),
{
    let s = trim_chars(s0);
    proof {
        crate::text::lemma_trim_start_props(s0@);
        crate::text::lemma_trim_end_props(crate::text::trim_start(s0@));
    }
    if s.len() == 0 {
        return Err(string_of(&chars_of("empty mask atom")));
    }
    if s[0] == '!' {
        let rest = slice_vec(&s, 1, s.len());
        assert(rest@ =~= s@.skip(1));
        return match parse_unary(&rest) {
            Err(e) => Err(e),
            Ok(m) => Ok(Mask::Not(Box::new(m))),
        };
    }
    if has_char(&s, ',') && !has_char(&s, '|') && !has_char(&s, '&') {
        let parts = split_chars(&s, ',');
        let mut items: Vec<Vec<char>> = Vec::new();
        let mut i: usize = 0;
        assert(views(parts@).take(0) =~= Seq::<Seq<char>>::empty());
        assert(views(items@) =~= Seq::<Seq<char>>::empty());
        while i < parts.len()
            invariant
                i <= parts@.len(),
                views(items@) == list_items(views(parts@).take(i as int)),
            decreases parts.len() - i,
        {
            let ghost pv = views(parts@);
            assert(pv.take(i + 1).drop_last() == pv.take(i as int));
            assert(pv.take(i + 1).last() == parts@[i as int]@);
            let t = trim_chars(&parts[i]);
            if t.len() != 0 {
                let ghost before = views(items@);
                items.push(t);
                assert(views(items@) =~= before.push(t@));
            }
            i += 1;
        }
        assert(views(parts@).take(parts@.len() as int) == views(parts@));
        if items.len() == 0 {
            return Err(string_of(&chars_of("empty mask list")));
        }
        let ghost iv = views(items@);
        let mut acc = match parse_atom(&items[0]) {
            Err(e) => {
                proof {
                    lemma_list_fold_err_tail(iv, 1, e@);
                }
                return Err(e);
            },
            Ok(m) => m,
        };
        let mut k: usize = 1;
        while k < items.len()
            invariant
                1 <= k <= items@.len(),
                iv == views(items@),
                list_fold(iv, k as nat) == Ok::<MaskView, Seq<char>>(acc@),
            decreases items.len() - k,
        {
            match parse_atom(&items[k]) {
                Err(e) => {
                    proof {
                        lemma_list_fold_err(iv, k as nat, e@);
                    }
                    return Err(e);
                },
                Ok(m) => {
                    acc = Mask::Or(Box::new(acc), Box::new(m));
                },
            }
            k += 1;
        }
        return Ok(acc);
    }
    parse_atom(&s)
}

proof fn lemma_list_fold_err(items: Seq<Seq<char>>, k: nat, e: Seq<char>)
    requires
        1 <= k < items.len(),
        list_fold(items, k) is Ok,
        parse_atom_spec(items[k as int]) == Err::<MaskView, Seq<char>>(e),
    ensures
        list_fold(items, items.len()) == Err::<MaskView, Seq<char>>(e),
    decreases items.len() - k,
{
    if k + 1 < items.len() {
        assert(list_fold(items, k + 1) == Err::<MaskView, Seq<char>>(e));
        lemma_list_fold_err_tail(items, k + 1, e);
    }
}

proof fn lemma_list_fold_err_tail(items: Seq<Seq<char>>, n: nat, e: Seq<char>)
    requires
        1 <= n <= items.len(),
        list_fold(items, n) == Err::<MaskView, Seq<char>>(e),
    ensures
        list_fold(items, items.len()) == Err::<MaskView, Seq<char>>(e),
    decreases items.len() - n,
{
    if n < items.len() {
        lemma_list_fold_err_tail(items, n + 1, e);
    }
}

fn parse_and(s0: &[char]) -> (r: Result<Mask, String>)
    ensures
        match r {
            Ok(m) => parse_and_spec(s0@) == Ok::<MaskView, Seq<char>>(m@),
            Err(e) => parse_and_spec(s0@) == Err::<MaskView, Seq<char>>(e@),
        },
    decreases s0@.len(),
{
    let s = trim_chars(s0);
    proof {
        crate::text::lemma_trim_start_props(s0@);
        crate::text::lemma_trim_end_props(crate::text::trim_start(s0@));
    }
    if s.len() > 0 && s[0] == '!' {
        let rest = slice_vec(&s, 1, s.len());
        assert(rest@ =~= s@.skip(1));
        return match parse_and(&rest) {
            Err(e) => Err(e),
            Ok(m) => Ok(Mask::Not(Box::new(m))),
        };
    }
    parse_and_chain(s0)
}

fn parse_and_chain(s: &[char]) -> (r: Result<Mask, String>)
    ensures
        match r {
            Ok(m) => and_chain_spec(s@) == Ok::<MaskView, Seq<char>>(m@),
            Err(e) => and_chain_spec(s@) == Err::<MaskView, Seq<char>>(e@),
        },
{
    let parts = split_top_chars(s, '&');
    proof {
        lemma_split_top(s@, '&');
    }
    let ghost pv = views(parts@);
    assert(pv[0] == parts@[0]@);
    let mut acc = match parse_unary(&parts[0]) {
        Err(e) => {
            proof {
                lemma_and_fold_err_tail(s@, 1, e@);
            }
            return Err(e);
        },
        Ok(m) => m,
    };
    let mut k: usize = 1;
    while k < parts.len()
        invariant
            1 <= k <= parts@.len(),
            pv == views(parts@),
            pv == split_top(s@, '&'),
            and_fold(s@, k as nat) == Ok::<MaskView, Seq<char>>(acc@),
        decreases parts.len() - k,
    {
        assert(pv[k as int] == parts@[k as int]@);
        match parse_unary(&parts[k]) {
            Err(e) => {
                proof {
                    lemma_and_fold_err(s@, k as nat, e@);
                }
                return Err(e);
            },
            Ok(m) => {
                acc = Mask::And(Box::new(acc), Box::new(m));
            },
        }
        k += 1;
    }
    Ok(acc)
}

proof fn lemma_and_fold_err(s: Seq<char>, k: nat, e: Seq<char>)
    requires
        1 <= k < split_top(s, '&').len(),
        and_fold(s, k) is Ok,
        parse_unary_spec(split_top(s, '&')[k as int]) == Err::<MaskView, Seq<char>>(e),
    ensures
        and_fold(s, split_top(s, '&').len()) == Err::<MaskView, Seq<char>>(e),
    decreases split_top(s, '&').len() - k,
{
    assert(and_fold(s, k + 1) == Err::<MaskView, Seq<char>>(e));
    if k + 1 < split_top(s, '&').len() {
        lemma_and_fold_err_tail(s, k + 1, e);
    }
}

proof fn lemma_and_fold_err_tail(s: Seq<char>, n: nat, e: Seq<char>)
    requires
        1 <= n <= split_top(s, '&').len(),
        and_fold(s, n) == Err::<MaskView, Seq<char>>(e),
    ensures
        and_fold(s, split_top(s, '&').len()) == Err::<MaskView, Seq<char>>(e),
    decreases split_top(s, '&').len() - n,
{
    if n < split_top(s, '&').len() {
        lemma_and_fold_err_tail(s, n + 1, e);
    }
}

fn parse_or(s: &[char]) -> (r: Result<Mask, String>)
    ensures
        match r {
            Ok(m) => parse_or_spec(s@) == Ok::<MaskView, Seq<char>>(m@),
            Err(e) => parse_or_spec(s@) == Err::<MaskView, Seq<char>>(e@),
        },
{
    let parts = split_top_chars(s, '|');
    proof {
        lemma_split_top(s@, '|');
    }
    let ghost pv = views(parts@);
    assert(pv[0] == parts@[0]@);
    let mut acc = match parse_and(&parts[0]) {
        Err(e) => {
            proof {
                lemma_or_fold_err_tail(s@, 1, e@);
            }
            return Err(e);
        },
        Ok(m) => m,
    };
    let mut k: usize = 1;
    while k < parts.len()
        invariant
            1 <= k <= parts@.len(),
            pv == views(parts@),
            pv == split_top(s@, '|'),
            or_fold(s@, k as nat) == Ok::<MaskView, Seq<char>>(acc@),
        decreases parts.len() - k,
    {
        assert(pv[k as int] == parts@[k as int]@);
        match parse_and(&parts[k]) {
            Err(e) => {
                proof {
                    lemma_or_fold_err(s@, k as nat, e@);
                }
                return Err(e);
            },
            Ok(m) => {
                acc = Mask::Or(Box::new(acc), Box::new(m));
            },
        }
        k += 1;
    }
    Ok(acc)
}

proof fn lemma_or_fold_err(s: Seq<char>, k: nat, e: Seq<char>)
    requires
        1 <= k < split_top(s, '|').len(),
        or_fold(s, k) is Ok,
        parse_and_spec(split_top(s, '|')[k as int]) == Err::<MaskView, Seq<char>>(e),
    ensures
        or_fold(s, split_top(s, '|').len()) == Err::<MaskView, Seq<char>>(e),
    decreases split_top(s, '|').len() - k,
{
    assert(or_fold(s, k + 1) == Err::<MaskView, Seq<char>>(e));
    if k + 1 < split_top(s, '|').len() {
        lemma_or_fold_err_tail(s, k + 1, e);
    }
}

proof fn lemma_or_fold_err_tail(s: Seq<char>, n: nat, e: Seq<char>)
    requires
        1 <= n <= split_top(s, '|').len(),
        or_fold(s, n) == Err::<MaskView, Seq<char>>(e),
    ensures
        or_fold(s, split_top(s, '|').len()) == Err::<MaskView, Seq<char>>(e),
    decreases split_top(s, '|').len() - n,
{
    if n < split_top(s, '|').len() {
        lemma_or_fold_err_tail(s, n + 1, e);
    }
}

impl Mask {
    pub fn any() -> (r: Self)
        ensures
            r@ == MaskView::Any,
    {
        Mask::Any
    }

    /// Whether the mask accepts `block`.
    pub fn matches(&self, block: &BlockState) -> (r: bool)
        ensures
            r == mask_matches(self@, block@),
        decreases self,
    {
        match self {
            Mask::Any => true,
            Mask::AirLike => block.is_air_like(),
            Mask::Solid => !block.is_air_like(),
            Mask::Exact(f) => matches_filter(block, f),
            Mask::Not(inner) => !inner.matches(block),
            Mask::And(a, b) => a.matches(block) && b.matches(block),
            Mask::Or(a, b) => a.matches(block) || b.matches(block),
        }
    }

    /// Parses a mask; blank input is `Any`.
    pub fn parse(input: &str) -> (r: Result<Self, String>)
        ensures
            match r {
                Ok(m) => parse_mask(input@) == Ok::<MaskView, Seq<char>>(m@),
                Err(e) => parse_mask(input@) == Err::<MaskView, Seq<char>>(e@),
            },
    {
        let s = trimmed(input);
        if s.len() == 0 {
            return Ok(Mask::Any);
        }
        parse_or(&s)
    }

    /// Combines an optional include mask with an exclude list:
    /// `base & !(exclude)`, or `base` alone when the exclude list is blank.
    pub fn with_exclude(base: Option<Self>, exclude: Option<&str>) -> (r: Result<Self, String>)
        ensures
            ({
                let b = match base {
                    Some(m) => m@,
                    None => MaskView::Any,
                };
                match exclude {
                    None => r == Ok::<Mask, String>(match base { Some(m) => m, None => Mask::Any }),
                    Some(ex) => if trim(ex@).len() == 0 {
                        r is Ok && r->Ok_0@ == b
                    } else {
                        match parse_mask(trim(ex@)) {
                            Ok(e) => r is Ok && r->Ok_0@ == MaskView::And(
                                Box::new(b),
                                Box::new(MaskView::Not(Box::new(e))),
                            ),
                            Err(msg) => r is Err && r->Err_0@ == msg,
                        }
                    },
                }
            }),
    {
        let base = match base {
            Some(m) => m,
            None => Mask::Any,
        };
        let ex = match exclude {
            None => return Ok(base),
            Some(e) => e,
        };
        let t = trimmed(ex);
        if t.len() == 0 {
            return Ok(base);
        }
        let text = string_of(&t);
        proof {
            crate::text::lemma_trim_idempotent(ex@);
        }
        match Self::parse(text.as_str()) {
            Err(e) => Err(e),
            Ok(excl) => {
                let r = Mask::And(Box::new(base), Box::new(Mask::Not(Box::new(excl))));
                assert(r@ == MaskView::And(
                    Box::new(base@),
                    Box::new(MaskView::Not(Box::new(excl@))),
                )) by {
                    reveal_with_fuel(Mask::view_spec, 3);
                }
                Ok(r)
            },
        }
    }

    /// Text form: `*`, `air`, `#solid`, a compact state, `!x`, `(a&b)`, `(a|b)`.
    pub fn describe(&self) -> (r: String)
        ensures
            r@ == describe_mask(self@),
    {
        let v = self.describe_chars();
        string_of(&v)
    }

    fn describe_chars(&self) -> (r: Vec<char>)
        ensures
            r@ == describe_mask(self@),
        decreases self,
    {
        match self {
            Mask::Any => chars_of("*"),
            Mask::AirLike => chars_of("air"),
            Mask::Solid => chars_of("#solid"),
            Mask::Exact(b) => b.compact_chars(),
            Mask::Not(inner) => {
                let mut out = chars_of("!");
                let d = inner.describe_chars();
                append(&mut out, &d);
                out
            },
            Mask::And(a, b) => {
                let mut out = chars_of("(");
                let da = a.describe_chars();
                append(&mut out, &da);
                crate::text::append_str(&mut out, "&");
                let db = b.describe_chars();
                append(&mut out, &db);
                crate::text::append_str(&mut out, ")");
                out
            },
            Mask::Or(a, b) => {
                let mut out = chars_of("(");
                let da = a.describe_chars();
                append(&mut out, &da);
                crate::text::append_str(&mut out, "|");
                let db = b.describe_chars();
                append(&mut out, &db);
                crate::text::append_str(&mut out, ")");
                out
            },
        }
    }
}

/// A mask and its negation never both accept a block.
pub proof fn law_not_flips(m: MaskView, b: BlockStateView)
    ensures
        mask_matches(MaskView::Not(Box::new(m)), b) == !mask_matches(m, b),
{
}

/// `base & !(excl)` accepts exactly what `base` accepts and `excl` refuses.
pub proof fn law_exclude(base: MaskView, excl: MaskView, b: BlockStateView)
    ensures
        mask_matches(
            MaskView::And(Box::new(base), Box::new(MaskView::Not(Box::new(excl)))),
            b,
        ) == (mask_matches(base, b) && !mask_matches(excl, b)),
{
    reveal_with_fuel(mask_matches, 3);
}

/// A plain mask atom: non-empty, not starting or ending with white space,
/// and free of `|`, `&`, `,`, `!` and parentheses.
pub open spec fn plain_atom(a: Seq<char>) -> bool {
    &&& a.len() > 0
    &&& !crate::text::is_ws(a[0])
    &&& !crate::text::is_ws(a.last())
    &&& forall|i: int|
        0 <= i < a.len() ==> #[trigger] a[i] != '|' && a[i] != '&' && a[i] != ',' && a[i] != '!'
            && a[i] != '(' && a[i] != ')'
}

proof fn lemma_split_top_plain(s: Seq<char>, sep: char, i: int, start: int, depth: int)
    requires
        0 <= start <= i <= s.len(),
        forall|j: int| i <= j < s.len() ==> s[j] != sep && s[j] != '(' && s[j] != ')',
    ensures
        split_top_from(s, sep, i, start, depth) == seq![s.subrange(start, s.len() as int)],
    decreases s.len() - i,
{
    if i < s.len() {
        lemma_split_top_plain(s, sep, i + 1, start, depth);
    }
}

proof fn lemma_split_top_two(a: Seq<char>, b: Seq<char>, sep: char)
    requires
        sep != '(' && sep != ')',
        forall|j: int| 0 <= j < a.len() ==> a[j] != sep && a[j] != '(' && a[j] != ')',
        forall|j: int| 0 <= j < b.len() ==> b[j] != sep && b[j] != '(' && b[j] != ')',
    ensures
        split_top(a + seq![sep] + b, sep) == seq![a, b],
{
    let s = a + seq![sep] + b;
    assert forall|j: int| a.len() as int + 1 <= j < s.len() implies s[j] != sep && s[j] != '(' && s[j]
        != ')' by {
        assert(s[j] == b[j - a.len() - 1]);
    }
    lemma_split_top_plain(s, sep, a.len() as int + 1, a.len() as int + 1, 0);
    assert forall|i: int| 0 <= i <= a.len() implies split_top_from(s, sep, i, 0, 0) == seq![
        s.subrange(0, a.len() as int),
    ] + seq![s.subrange(a.len() as int + 1, s.len() as int)] by {
        lemma_split_top_two_from(s, a, sep, i);
    }
    assert(s.subrange(0, a.len() as int) =~= a);
    assert(s.subrange(a.len() as int + 1, s.len() as int) =~= b);
}

proof fn lemma_split_top_two_from(s: Seq<char>, a: Seq<char>, sep: char, i: int)
    requires
        0 <= i <= a.len(),
        a.len() < s.len(),
        s[a.len() as int] == sep,
        sep != '(' && sep != ')',
        forall|j: int| 0 <= j < a.len() ==> s[j] == a[j],
        forall|j: int| 0 <= j < a.len() ==> a[j] != sep && a[j] != '(' && a[j] != ')',
        split_top_from(s, sep, a.len() as int + 1, a.len() as int + 1, 0) == seq![
            s.subrange(a.len() as int + 1, s.len() as int),
        ],
    ensures
        split_top_from(s, sep, i, 0, 0) == seq![s.subrange(0, a.len() as int)] + seq![
            s.subrange(a.len() as int + 1, s.len() as int),
        ],
    decreases a.len() - i,
{
    if i < a.len() {
        lemma_split_top_two_from(s, a, sep, i + 1);
    }
}

proof fn lemma_trim_plain(s: Seq<char>)
    requires
        s.len() > 0,
        !crate::text::is_ws(s[0]),
        !crate::text::is_ws(s.last()),
    ensures
        trim(s) == s,
{
    assert(crate::text::trim_start(s) == s);
}

proof fn lemma_atom_parse(a: Seq<char>)
    requires
        plain_atom(a),
    ensures
        parse_mask(a) == parse_atom_spec(a),
        parse_and_spec(a) == parse_atom_spec(a),
        parse_unary_spec(a) == parse_atom_spec(a),
        split_top(a, '|') == seq![a],
        split_top(a, '&') == seq![a],
{
    lemma_trim_plain(a);
    lemma_split_top_plain(a, '|', 0, 0, 0);
    lemma_split_top_plain(a, '&', 0, 0, 0);
    assert(a.subrange(0, a.len() as int) =~= a);
    assert(!a.contains(','));
    assert(a[0] != '!');
}

proof fn lemma_not_case(a: Seq<char>)
    requires
        plain_atom(a),
    ensures
        parse_mask("!"@ + a) == match parse_mask(a) {
            Ok(m) => Ok(MaskView::Not(Box::new(m))),
            Err(e) => Err::<MaskView, Seq<char>>(e),
        },
{
    reveal_strlit("!");
    lemma_atom_parse(a);
    let na = "!"@ + a;
    assert(na[0] == '!');
    assert(na.last() == a.last());
    lemma_trim_plain(na);
    assert forall|j: int| 0 <= j < na.len() implies na[j] != '|' && na[j] != '(' && na[j] != ')' by {
        if j > 0 {
            assert(na[j] == a[j - 1]);
        }
    }
    lemma_split_top_plain(na, '|', 0, 0, 0);
    assert(na.subrange(0, na.len() as int) =~= na);
    assert(na.skip(1) =~= a);
}

proof fn lemma_or_case(a: Seq<char>, b: Seq<char>)
    requires
        plain_atom(a),
        plain_atom(b),
    ensures
        parse_mask(a + "|"@ + b) == match (parse_mask(a), parse_mask(b)) {
            (Err(e), _) => Err::<MaskView, Seq<char>>(e),
            (Ok(_), Err(e)) => Err(e),
            (Ok(x), Ok(y)) => Ok(MaskView::Or(Box::new(x), Box::new(y))),
        },
{
    reveal_strlit("|");
    lemma_atom_parse(a);
    lemma_atom_parse(b);
    let o = a + "|"@ + b;
    assert(o =~= a + seq!['|'] + b);
    lemma_split_top_two(a, b, '|');
    assert(o[0] == a[0] && o.last() == b.last());
    lemma_trim_plain(o);
    assert(split_top(o, '|') == seq![a, b]);
    assert(or_fold(o, 1) == parse_and_spec(a));
    assert(parse_mask(o) == or_fold(o, 2));
}

proof fn lemma_and_case(a: Seq<char>, b: Seq<char>)
    requires
        plain_atom(a),
        plain_atom(b),
    ensures
        parse_mask(a + "&"@ + b) == match (parse_mask(a), parse_mask(b)) {
            (Err(e), _) => Err::<MaskView, Seq<char>>(e),
            (Ok(_), Err(e)) => Err(e),
            (Ok(x), Ok(y)) => Ok(MaskView::And(Box::new(x), Box::new(y))),
        },
{
    reveal_strlit("&");
    lemma_atom_parse(a);
    lemma_atom_parse(b);
    let n = a + "&"@ + b;
    assert(n =~= a + seq!['&'] + b);
    lemma_split_top_two(a, b, '&');
    assert(n[0] == a[0] && n.last() == b.last());
    lemma_trim_plain(n);
    assert forall|j: int| 0 <= j < n.len() implies n[j] != '|' && n[j] != '(' && n[j] != ')' by {
        if j < a.len() {
            assert(n[j] == a[j]);
        } else if j > a.len() {
            assert(n[j] == b[j - a.len() - 1]);
        }
    }
    lemma_split_top_plain(n, '|', 0, 0, 0);
    assert(n.subrange(0, n.len() as int) =~= n);
    assert(n[0] != '!');
    assert(split_top(n, '|') == seq![n]);
    assert(parse_mask(n) == or_fold(n, 1));
    assert(or_fold(n, 1) == parse_and_spec(n));
    assert(parse_and_spec(n) == and_chain_spec(n));
    assert(split_top(n, '&') == seq![a, b]);
    assert(and_fold(n, 1) == parse_unary_spec(a));
    assert(and_chain_spec(n) == and_fold(n, 2));
}

proof fn lemma_comma_case(a: Seq<char>, b: Seq<char>)
    requires
        plain_atom(a),
        plain_atom(b),
    ensures
        parse_mask(a + ","@ + b) == match (parse_mask(a), parse_mask(b)) {
            (Err(e), _) => Err::<MaskView, Seq<char>>(e),
            (Ok(_), Err(e)) => Err(e),
            (Ok(x), Ok(y)) => Ok(MaskView::Or(Box::new(x), Box::new(y))),
        },
{
    reveal_strlit(",");
    lemma_atom_parse(a);
    lemma_atom_parse(b);
    let c = a + ","@ + b;
    assert(c =~= a + seq![','] + b);
    assert(c[0] == a[0] && c.last() == b.last());
    lemma_trim_plain(c);
    assert forall|j: int| 0 <= j < c.len() implies c[j] != '|' && c[j] != '&' && c[j] != '('
        && c[j] != ')' by {
        if j < a.len() {
            assert(c[j] == a[j]);
        } else if j > a.len() {
            assert(c[j] == b[j - a.len() - 1]);
        }
    }
    lemma_split_top_plain(c, '|', 0, 0, 0);
    lemma_split_top_plain(c, '&', 0, 0, 0);
    assert(c.subrange(0, c.len() as int) =~= c);
    assert(c[0] != '!');
    assert(c[a.len() as int] == ',');
    assert(c.contains(','));
    assert(!c.contains('|'));
    assert(!c.contains('&'));
    crate::text::lemma_split_first(a, b, ',');
    crate::text::lemma_split_none(b, ',');
    let parts = split(c, ',');
    assert(parts =~= seq![a, b]);
    assert(parts.drop_last() =~= seq![a]);
    assert(seq![a].drop_last() =~= Seq::<Seq<char>>::empty());
    assert(list_items(Seq::<Seq<char>>::empty()) =~= Seq::<Seq<char>>::empty());
    assert(list_items(seq![a]) =~= seq![a]);
    assert(list_items(parts) =~= seq![a, b]);
    assert(split_top(c, '|') == seq![c]);
    assert(split_top(c, '&') == seq![c]);
    assert(parse_mask(c) == or_fold(c, 1));
    assert(or_fold(c, 1) == parse_and_spec(c));
    assert(parse_and_spec(c) == and_chain_spec(c));
    assert(and_chain_spec(c) == and_fold(c, 1));
    assert(and_fold(c, 1) == parse_unary_spec(c));
    assert(parse_unary_spec(c) == list_fold(seq![a, b], 2));
    assert(list_fold(seq![a, b], 1) == parse_atom_spec(a));
}

/// Mask parsing composes over plain atoms: `!a` negates `a`, `a|b` and
/// `a,b` are either, `a&b` is both (each failing with the first failing
/// atom); blank text is everything.
pub proof fn law_mask_composes(a: Seq<char>, b: Seq<char>)
    requires
        plain_atom(a),
        plain_atom(b),
    ensures
        parse_mask(""@) == Ok::<MaskView, Seq<char>>(MaskView::Any),
        parse_mask("!"@ + a) == match parse_mask(a) {
            Ok(m) => Ok(MaskView::Not(Box::new(m))),
            Err(e) => Err::<MaskView, Seq<char>>(e),
        },
        parse_mask(a + "|"@ + b) == match (parse_mask(a), parse_mask(b)) {
            (Err(e), _) => Err::<MaskView, Seq<char>>(e),
            (Ok(_), Err(e)) => Err(e),
            (Ok(x), Ok(y)) => Ok(MaskView::Or(Box::new(x), Box::new(y))),
        },
        parse_mask(a + "&"@ + b) == match (parse_mask(a), parse_mask(b)) {
            (Err(e), _) => Err::<MaskView, Seq<char>>(e),
            (Ok(_), Err(e)) => Err(e),
            (Ok(x), Ok(y)) => Ok(MaskView::And(Box::new(x), Box::new(y))),
        },
        parse_mask(a + ","@ + b) == match (parse_mask(a), parse_mask(b)) {
            (Err(e), _) => Err::<MaskView, Seq<char>>(e),
            (Ok(_), Err(e)) => Err(e),
            (Ok(x), Ok(y)) => Ok(MaskView::Or(Box::new(x), Box::new(y))),
        },
{
    reveal_strlit("");
    assert(trim(""@) =~= Seq::<char>::empty()) by {
        assert(crate::text::trim_start(""@) == ""@);
    }
    lemma_not_case(a);
    lemma_or_case(a, b);
    lemma_and_case(a, b);
    lemma_comma_case(a, b);
}


/// Outside the air filters (an air-like filter, or one named plain `air`),
/// an exact filter matches a block exactly when the block state equals the
/// filter, name and every property: a block whose properties differ from
/// the filter's is never matched, and the filter's own state always is.
pub proof fn law_exact_filter_is_equality(f: BlockStateView, b: BlockStateView)
    requires
        !is_air_like_view(f),
        f.name != "air"@,
    ensures
        mask_matches(MaskView::Exact(f), b) <==> b == f,
        matches_filter_spec(b, f) <==> b == f,
        b.props != f.props ==> !mask_matches(MaskView::Exact(f), b),
        b.name != f.name ==> !mask_matches(MaskView::Exact(f), b),
        mask_matches(MaskView::Exact(f), f),
{
}

} // verus!
