//! Command-line helpers: recognising a preview invocation among the
//! arguments, and reading `x,z` / `x,y,z` integer coordinates.

use vstd::prelude::*;
use crate::mask::{parse_mask, Mask, MaskView};
use crate::pattern::{parse_pattern, weight_sum, Pattern};
use crate::text::{
    trim, append_str, chars_of, digit_value, eq_str, is_digit, split, split_chars, string_from, string_of, views,
};

verus! {

/// The positional arguments: `--session` and the value after it are
/// dropped, as is every other argument that starts with `-`.
pub open spec fn positionals_from(args: Seq<Seq<char>>, i: nat) -> Seq<Seq<char>>
    decreases args.len() + 1 - i,
{
    if i >= args.len() {
        seq![]
    } else if args[i as int] == "--session"@ {
        positionals_from(args, i + 2)
    } else if args[i as int].len() > 0 && args[i as int][0] == '-' {
        positionals_from(args, i + 1)
    } else {
        seq![args[i as int]] + positionals_from(args, i + 1)
    }
}

/// Whether the command is `preview …` or `view preview …`.
pub open spec fn is_preview_spec(args: Seq<Seq<char>>) -> bool {
    let p = positionals_from(args, 0);
    (p.len() >= 1 && p[0] == "preview"@) || (p.len() >= 2 && p[0] == "view"@ && p[1]
        == "preview"@)
}

/// Whether these arguments (without the program name) ask for the preview
/// window.
pub fn is_preview_invocation(args: &Vec<String>) -> (r: bool)
    ensures
        r == is_preview_spec(args@.map_values(|s: String| s@)),
{
    let ghost av = args@.map_values(|s: String| s@);
    let mut pos: Vec<Vec<char>> = Vec::new();
    let mut i: usize = 0;
    proof {
        reveal_strlit("--session");
    }
    while i < args.len()
        invariant
            i <= args@.len(),
            av == args@.map_values(|s: String| s@),
            views(pos@) + positionals_from(av, i as nat) == positionals_from(av, 0),
        decreases args.len() - i,
    {
        let a = chars_of(args[i].as_str());
        assert(av[i as int] == a@);
        if eq_str(&a, "--session") {
            if i + 1 < args.len() {
                i += 2;
            } else {
                assert(positionals_from(av, (i + 2) as nat) =~= Seq::<Seq<char>>::empty());
                i = args.len();
                assert(positionals_from(av, i as nat) =~= Seq::<Seq<char>>::empty());
            }
        } else if a.len() > 0 && a[0] == '-' {
            i += 1;
        } else {
            let ghost before = views(pos@);
            pos.push(a);
            assert(views(pos@) =~= before.push(a@));
            assert(views(pos@) + positionals_from(av, (i + 1) as nat) =~= before + positionals_from(
                av,
                i as nat,
            ));
            i += 1;
        }
    }
    assert(views(pos@) =~= positionals_from(av, 0));
    proof {
        reveal_strlit("preview");
        reveal_strlit("view");
    }
    if pos.len() >= 1 && eq_str(&pos[0], "preview") {
        return true;
    }
    pos.len() >= 2 && eq_str(&pos[0], "view") && eq_str(&pos[1], "preview")
}

/// What `str::parse::<i32>` reports for the digits from `k` on, with `acc`
/// read so far: each character must be a digit (checked before the value
/// is), and the value may not leave the `i32` range.
pub open spec fn scan_i32(d: Seq<char>, k: nat, acc: int, neg: bool) -> Result<int, Seq<char>>
    decreases d.len() - k,
{
    if k >= d.len() {
        Ok(acc)
    } else if !is_digit(d[k as int]) {
        Err("invalid digit found in string"@)
    } else {
        let next = if neg {
            acc * 10 - digit_value(d[k as int])
        } else {
            acc * 10 + digit_value(d[k as int])
        };
        if next > i32::MAX {
            Err("number too large to fit in target type"@)
        } else if next < i32::MIN {
            Err("number too small to fit in target type"@)
        } else {
            scan_i32(d, k + 1, next, neg)
        }
    }
}

/// `str::parse::<i32>`, with the text its error prints.
pub open spec fn parse_i32_spec(s: Seq<char>) -> Result<int, Seq<char>> {
    if s.len() == 0 {
        Err("cannot parse integer from empty string"@)
    } else if (s[0] == '+' || s[0] == '-') && s.len() == 1 {
        Err("invalid digit found in string"@)
    } else if s[0] == '+' || s[0] == '-' {
        scan_i32(s, 1, 0, s[0] == '-')
    } else {
        scan_i32(s, 0, 0, false)
    }
}

/// Reads an `i32` as `str::parse` does, failing with its error text.
pub fn parse_i32_text(s: &[char]) -> (r: Result<i32, String>)
    ensures
        match parse_i32_spec(s@) {
            Ok(v) => r == Ok::<i32, String>(v as i32) && i32::MIN <= v <= i32::MAX,
            Err(m) => r is Err && r->Err_0@ == m,
        },
{
    if s.len() == 0 {
        return Err(string_from("cannot parse integer from empty string"));
    }
    if (s[0] == '+' || s[0] == '-') && s.len() == 1 {
        return Err(string_from("invalid digit found in string"));
    }
    let neg = s[0] == '-';
    let mut k: usize = if s[0] == '+' || s[0] == '-' {
        1
    } else {
        0
    };
    let ghost k0 = k;
    let mut acc: i64 = 0;
    while k < s.len()
        invariant
            k <= s@.len(),
            i32::MIN <= acc <= i32::MAX,
            neg == (s@[0] == '-'),
            parse_i32_spec(s@) == scan_i32(s@, k as nat, acc as int, neg),
        decreases s.len() - k,
    {
        let c = s[k];
        if !('0' <= c && c <= '9') {
            return Err(string_from("invalid digit found in string"));
        }
        let d = (c as u32 - '0' as u32) as i64;
        assert(d == digit_value(c));
        let next = if neg {
            acc * 10 - d
        } else {
            acc * 10 + d
        };
        if next > i32::MAX as i64 {
            return Err(string_from("number too large to fit in target type"));
        }
        if next < i32::MIN as i64 {
            return Err(string_from("number too small to fit in target type"));
        }
        acc = next;
        k += 1;
    }
    Ok(acc as i32)
}

/// `x,z` as two integers, or the first error: the shape, then each number.
pub open spec fn parse_xz_spec(s: Seq<char>) -> Result<(int, int), Seq<char>> {
    let parts = split(s, ',');
    if parts.len() != 2 {
        Err("expected x,z got `"@ + s + "`"@)
    } else {
        match (parse_i32_spec(parts[0]), parse_i32_spec(parts[1])) {
            (Err(m), _) => Err(m),
            (Ok(_), Err(m)) => Err(m),
            (Ok(x), Ok(z)) => Ok((x, z)),
        }
    }
}

/// `x,y,z` as three integers, or the first error.
pub open spec fn parse_xyz_spec(s: Seq<char>) -> Result<(int, int, int), Seq<char>> {
    let parts = split(s, ',');
    if parts.len() != 3 {
        Err("expected x,y,z got `"@ + s + "`"@)
    } else {
        match (parse_i32_spec(parts[0]), parse_i32_spec(parts[1]), parse_i32_spec(parts[2])) {
            (Err(m), _, _) => Err(m),
            (Ok(_), Err(m), _) => Err(m),
            (Ok(_), Ok(_), Err(m)) => Err(m),
            (Ok(x), Ok(y), Ok(z)) => Ok((x, y, z)),
        }
    }
}

/// Reads an `x,z` argument.
pub fn parse_xz(s: &str) -> (r: Result<(i32, i32), String>)
    ensures
        match parse_xz_spec(s@) {
            Ok((x, z)) => r == Ok::<(i32, i32), String>((x as i32, z as i32)),
            Err(m) => r is Err && r->Err_0@ == m,
        },
{
    let c = chars_of(s);
    let parts = split_chars(&c, ',');
    proof {
        assert(views(parts@).len() == parts@.len());
    }
    if parts.len() != 2 {
        let mut m = chars_of("expected x,z got `");
        append_str(&mut m, s);
        append_str(&mut m, "`");
        return Err(string_of(&m));
    }
    assert(views(parts@)[0] == parts@[0]@ && views(parts@)[1] == parts@[1]@);
    let x = match parse_i32_text(&parts[0]) {
        Ok(v) => v,
        Err(m) => return Err(m),
    };
    let z = match parse_i32_text(&parts[1]) {
        Ok(v) => v,
        Err(m) => return Err(m),
    };
    Ok((x, z))
}

/// Reads an `x,y,z` integer argument.
pub fn parse_xyz_i(s: &str) -> (r: Result<(i32, i32, i32), String>)
    ensures
        match parse_xyz_spec(s@) {
            Ok((x, y, z)) => r == Ok::<(i32, i32, i32), String>((x as i32, y as i32, z as i32)),
            Err(m) => r is Err && r->Err_0@ == m,
        },
{
    let c = chars_of(s);
    let parts = split_chars(&c, ',');
    proof {
        assert(views(parts@).len() == parts@.len());
    }
    if parts.len() != 3 {
        let mut m = chars_of("expected x,y,z got `");
        append_str(&mut m, s);
        append_str(&mut m, "`");
        return Err(string_of(&m));
    }
    assert(views(parts@)[0] == parts@[0]@ && views(parts@)[1] == parts@[1]@ && views(parts@)[2]
        == parts@[2]@);
    let x = match parse_i32_text(&parts[0]) {
        Ok(v) => v,
        Err(m) => return Err(m),
    };
    let y = match parse_i32_text(&parts[1]) {
        Ok(v) => v,
        Err(m) => return Err(m),
    };
    let z = match parse_i32_text(&parts[2]) {
        Ok(v) => v,
        Err(m) => return Err(m),
    };
    Ok((x, y, z))
}

/// The mask that `--mask` and `--mask-exclude` describe: none when neither
/// is given; else the include mask (everything when absent) less the
/// excluded states, or the first parse error.
pub open spec fn mask_opt_spec(mask: Option<Seq<char>>, exclude: Option<Seq<char>>) -> Result<
    Option<MaskView>,
    Seq<char>,
> {
    if mask is None && exclude is None {
        Ok(None)
    } else {
        let base = match mask {
            Some(s) => match parse_mask(s) {
                Ok(m) => Ok(m),
                Err(e) => Err(e),
            },
            None => Ok(MaskView::Any),
        };
        match base {
            Err(e) => Err(e),
            Ok(b) => match exclude {
                None => Ok(Some(b)),
                Some(ex) => if trim(ex).len() == 0 {
                    Ok(Some(b))
                } else {
                    match parse_mask(trim(ex)) {
                        Ok(e) => Ok(
                            Some(MaskView::And(Box::new(b), Box::new(MaskView::Not(Box::new(e))))),
                        ),
                        Err(m) => Err(m),
                    }
                },
            },
        }
    }
}

/// Builds the mask of the `--mask` / `--mask-exclude` options.
pub fn parse_mask_opt(mask: Option<&str>, exclude: Option<&str>) -> (r: Result<Option<Mask>, String>)
    ensures
        match mask_opt_spec(
            match mask {
                Some(s) => Some(s@),
                None => None,
            },
            match exclude {
                Some(s) => Some(s@),
                None => None,
            },
        ) {
            Ok(None) => r matches Ok(None),
            Ok(Some(m)) => r matches Ok(Some(v)) && v@ == m,
            Err(e) => r is Err && r->Err_0@ == e,
        },
{
    if mask.is_none() && exclude.is_none() {
        return Ok(None);
    }
    let base = match mask {
        Some(s) => match Mask::parse(s) {
            Ok(m) => Some(m),
            Err(e) => return Err(e),
        },
        None => None,
    };
    match Mask::with_exclude(base, exclude) {
        Ok(m) => Ok(Some(m)),
        Err(e) => Err(e),
    }
}

/// The pattern of the `--pattern` option, else of `--block`.
pub fn parse_pattern_arg(pattern: Option<&str>, block: Option<&str>) -> (r: Result<Pattern, String>)
    requires
        ({
            let src = match pattern {
                Some(p) => Some(p@),
                None => match block {
                    Some(b) => Some(b@),
                    None => None,
                },
            };
            src matches Some(t) ==> (parse_pattern(t) is Ok ==> weight_sum(parse_pattern(t)->Ok_0)
                <= 0xffff_ffff)
        }),
    ensures
        match (pattern, block) {
            (None, None) => r is Err && r->Err_0@ == "need --block or --pattern"@,
            _ => {
                let t = match pattern {
                    Some(p) => p@,
                    None => block->Some_0@,
                };
                match parse_pattern(t) {
                    Ok(es) => r matches Ok(p) && p.wf() && p.entries_view() == es,
                    Err(e) => r is Err && r->Err_0@ == e,
                }
            },
        },
{
    let src = match pattern {
        Some(p) => p,
        None => match block {
            Some(b) => b,
            None => return Err(string_from("need --block or --pattern")),
        },
    };
    Pattern::parse(src)
}

} // verus!
