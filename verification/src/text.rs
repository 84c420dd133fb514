//! Character-sequence helpers shared by the parsers of this crate.
//!
//! Every parser in the crate works on the characters of its input; these
//! functions state, over `Seq<char>`, what `str::trim`, `split`, `split_once`,
//! integer parsing and decimal formatting do, and compute them.

use vstd::prelude::*;

verus! {

/// The character sequences held by a vector of character vectors.
pub open spec fn views(v: Seq<Vec<char>>) -> Seq<Seq<char>> {
    v.map_values(|x: Vec<char>| x@)
}

/// Unicode `White_Space`, the set that `char::is_whitespace` tests.
pub open spec fn is_ws(c: char) -> bool {
    let u = c as u32;
    (9 <= u && u <= 13) || u == 32 || u == 0x85 || u == 0xa0 || u == 0x1680 || (0x2000 <= u
        && u <= 0x200a) || u == 0x2028 || u == 0x2029 || u == 0x202f || u == 0x205f || u == 0x3000
}

/// What `str::trim_start` leaves.
pub open spec fn trim_start(s: Seq<char>) -> Seq<char>
    decreases s.len(),
{
    if s.len() > 0 && is_ws(s[0]) {
        trim_start(s.drop_first())
    } else {
        s
    }
}

/// What `str::trim_end` leaves.
pub open spec fn trim_end(s: Seq<char>) -> Seq<char>
    decreases s.len(),
{
    if s.len() > 0 && is_ws(s.last()) {
        trim_end(s.drop_last())
    } else {
        s
    }
}

/// What `str::trim` leaves.
pub open spec fn trim(s: Seq<char>) -> Seq<char> {
    trim_end(trim_start(s))
}

/// Index of the first `c` in `s`, or -1.
pub open spec fn index_of(s: Seq<char>, c: char) -> int
    decreases s.len(),
{
    if s.len() == 0 {
        -1
    } else if s[0] == c {
        0
    } else {
        let r = index_of(s.drop_first(), c);
        if r < 0 {
            -1
        } else {
            r + 1
        }
    }
}

/// Index of the last `c` in `s`, or -1.
pub open spec fn last_index_of(s: Seq<char>, c: char) -> int
    decreases s.len(),
{
    if s.len() == 0 {
        -1
    } else if s.last() == c {
        s.len() - 1
    } else {
        last_index_of(s.drop_last(), c)
    }
}

/// The pieces of `s` between occurrences of `c` (what `str::split(c)` yields).
pub open spec fn split(s: Seq<char>, c: char) -> Seq<Seq<char>>
    decreases s.len(),
{
    let i = index_of(s, c);
    if i < 0 || i >= s.len() {
        seq![s]
    } else {
        seq![s.take(i)] + split(s.skip(i + 1), c)
    }
}

/// `str::split_once(c)`: the text before and after the first `c`.
pub open spec fn split_once(s: Seq<char>, c: char) -> Option<(Seq<char>, Seq<char>)> {
    let i = index_of(s, c);
    if i < 0 {
        None
    } else {
        Some((s.take(i), s.skip(i + 1)))
    }
}

/// `str::rsplit_once(c)`: the text before and after the last `c`.
pub open spec fn rsplit_once(s: Seq<char>, c: char) -> Option<(Seq<char>, Seq<char>)> {
    let i = last_index_of(s, c);
    if i < 0 {
        None
    } else {
        Some((s.take(i), s.skip(i + 1)))
    }
}

pub open spec fn starts_with(s: Seq<char>, p: Seq<char>) -> bool {
    p.len() <= s.len() && s.take(p.len() as int) == p
}

pub open spec fn ends_with(s: Seq<char>, p: Seq<char>) -> bool {
    p.len() <= s.len() && s.skip(s.len() - p.len()) == p
}

/// `str::strip_suffix`.
pub open spec fn strip_suffix(s: Seq<char>, p: Seq<char>) -> Option<Seq<char>> {
    if ends_with(s, p) {
        Some(s.take(s.len() - p.len()))
    } else {
        None
    }
}

/// `char::to_ascii_lowercase`.
pub open spec fn lower_char(c: char) -> char {
    if 'A' <= c && c <= 'Z' {
        ((c as u8) + 32u8) as char
    } else {
        c
    }
}

/// `str::to_ascii_lowercase`.
pub open spec fn lower(s: Seq<char>) -> Seq<char> {
    s.map_values(|c: char| lower_char(c))
}

pub open spec fn is_digit(c: char) -> bool {
    '0' <= c && c <= '9'
}

pub open spec fn digit_value(c: char) -> int {
    (c as u32) - ('0' as u32)
}

pub open spec fn all_digits(s: Seq<char>) -> bool {
    forall|i: int| 0 <= i < s.len() ==> #[trigger] is_digit(s[i])
}

/// Value of a run of decimal digits.
pub open spec fn digits_value(s: Seq<char>) -> int
    decreases s.len(),
{
    if s.len() == 0 {
        0
    } else {
        digits_value(s.drop_last()) * 10 + digit_value(s.last())
    }
}

/// The integer that `str::parse` reads from `s` before any range check:
/// an optional `+` (or `-` when `signed`) and at least one decimal digit.
pub open spec fn parse_int(s: Seq<char>, signed: bool) -> Option<int> {
    if s.len() > 0 && (s[0] == '+' || (signed && s[0] == '-')) {
        let body = s.drop_first();
        if body.len() > 0 && all_digits(body) {
            Some(
                if s[0] == '-' {
                    -digits_value(body)
                } else {
                    digits_value(body)
                },
            )
        } else {
            None
        }
    } else if s.len() > 0 && all_digits(s) {
        Some(digits_value(s))
    } else {
        None
    }
}

/// `str::parse` into an integer type whose range is `lo..=hi`.
pub open spec fn parse_in_range(s: Seq<char>, signed: bool, lo: int, hi: int) -> Option<int> {
    match parse_int(s, signed) {
        Some(v) => if lo <= v && v <= hi {
            Some(v)
        } else {
            None
        },
        None => None,
    }
}

pub open spec fn digit_char(d: int) -> char {
    if d == 0 {
        '0'
    } else if d == 1 {
        '1'
    } else if d == 2 {
        '2'
    } else if d == 3 {
        '3'
    } else if d == 4 {
        '4'
    } else if d == 5 {
        '5'
    } else if d == 6 {
        '6'
    } else if d == 7 {
        '7'
    } else if d == 8 {
        '8'
    } else {
        '9'
    }
}

/// Decimal digits of a natural number (what `Display` prints).
pub open spec fn nat_text(n: nat) -> Seq<char>
    decreases n,
{
    if n < 10 {
        seq![digit_char(n as int)]
    } else {
        nat_text(n / 10).push(digit_char((n % 10) as int))
    }
}

/// What `Display` prints for an integer.
pub open spec fn int_text(n: int) -> Seq<char> {
    if n < 0 {
        seq!['-'] + nat_text((-n) as nat)
    } else {
        nat_text(n as nat)
    }
}

/// What `Display` prints for a `bool`.
pub open spec fn bool_text(b: bool) -> Seq<char> {
    if b {
        seq!['t', 'r', 'u', 'e']
    } else {
        seq!['f', 'a', 'l', 's', 'e']
    }
}

/// Joins pieces with one separator character between them.
pub open spec fn join(parts: Seq<Seq<char>>, sep: char) -> Seq<char>
    decreases parts.len(),
{
    if parts.len() == 0 {
        seq![]
    } else if parts.len() == 1 {
        parts[0]
    } else {
        join(parts.drop_last(), sep).push(sep) + parts.last()
    }
}

pub proof fn lemma_index_of_bounds(s: Seq<char>, c: char)
    ensures
        -1 <= index_of(s, c) < s.len(),
        index_of(s, c) >= 0 ==> s[index_of(s, c)] == c,
        forall|j: int| 0 <= j < s.len() && (index_of(s, c) < 0 || j < index_of(s, c)) ==> s[j] != c,
    decreases s.len(),
{
    if s.len() > 0 && s[0] != c {
        lemma_index_of_bounds(s.drop_first(), c);
        assert forall|j: int|
            0 <= j < s.len() && (index_of(s, c) < 0 || j < index_of(s, c)) implies s[j] != c by {
            if j > 0 {
                assert(s[j] == s.drop_first()[j - 1]);
            }
        }
    }
}

pub proof fn lemma_index_of_is(s: Seq<char>, c: char, i: int)
    requires
        0 <= i <= s.len(),
        forall|j: int| 0 <= j < i ==> s[j] != c,
        i < s.len() ==> s[i] == c,
    ensures
        index_of(s, c) == (if i < s.len() {
            i
        } else {
            -1
        }),
    decreases s.len(),
{
    if s.len() > 0 && i > 0 {
        assert forall|j: int| 0 <= j < i - 1 implies s.drop_first()[j] != c by {
            assert(s.drop_first()[j] == s[j + 1]);
        }
        lemma_index_of_is(s.drop_first(), c, i - 1);
    }
}

pub proof fn lemma_last_index_of_is(s: Seq<char>, c: char, i: int)
    requires
        -1 <= i < s.len(),
        forall|j: int| i < j < s.len() ==> s[j] != c,
        i >= 0 ==> s[i] == c,
    ensures
        last_index_of(s, c) == i,
    decreases s.len(),
{
    if s.len() > 0 && i < s.len() - 1 {
        lemma_last_index_of_is(s.drop_last(), c, i);
    }
}

pub proof fn lemma_trim_start_is(s: Seq<char>, i: int)
    requires
        0 <= i <= s.len(),
        forall|j: int| 0 <= j < i ==> is_ws(s[j]),
        i < s.len() ==> !is_ws(s[i]),
    ensures
        trim_start(s) == s.skip(i),
    decreases s.len(),
{
    if i == 0 {
        assert(s.skip(0) == s);
    } else {
        assert forall|j: int| 0 <= j < i - 1 implies is_ws(s.drop_first()[j]) by {
            assert(s.drop_first()[j] == s[j + 1]);
        }
        lemma_trim_start_is(s.drop_first(), i - 1);
        assert(s.drop_first().skip(i - 1) == s.skip(i));
    }
}

pub proof fn lemma_trim_end_is(s: Seq<char>, k: int)
    requires
        0 <= k <= s.len(),
        forall|j: int| k <= j < s.len() ==> is_ws(s[j]),
        k > 0 ==> !is_ws(s[k - 1]),
    ensures
        trim_end(s) == s.take(k),
    decreases s.len(),
{
    if k == s.len() {
        assert(s.take(k) == s);
    } else {
        lemma_trim_end_is(s.drop_last(), k);
        assert(s.drop_last().take(k) == s.take(k));
    }
}

pub proof fn lemma_trim_start_props(s: Seq<char>)
    ensures
        trim_start(s).len() > 0 ==> !is_ws(trim_start(s)[0]),
        trim_start(s).len() <= s.len(),
        trim_start(s) == s.skip(s.len() - trim_start(s).len()),
    decreases s.len(),
{
    if s.len() > 0 && is_ws(s[0]) {
        lemma_trim_start_props(s.drop_first());
        assert(s.drop_first().skip(s.drop_first().len() - trim_start(s).len()) =~= s.skip(
            s.len() - trim_start(s).len(),
        ));
    } else {
        assert(s.skip(0) =~= s);
    }
}

pub proof fn lemma_trim_end_props(s: Seq<char>)
    ensures
        trim_end(s).len() > 0 ==> !is_ws(trim_end(s).last()),
        trim_end(s).len() <= s.len(),
        trim_end(s) == s.take(trim_end(s).len() as int),
    decreases s.len(),
{
    if s.len() > 0 && is_ws(s.last()) {
        lemma_trim_end_props(s.drop_last());
        assert(s.drop_last().take(trim_end(s).len() as int) =~= s.take(trim_end(s).len() as int));
    } else {
        assert(s.take(s.len() as int) =~= s);
    }
}

/// Trimming twice is trimming once.
pub proof fn lemma_trim_idempotent(s: Seq<char>)
    ensures
        trim(trim(s)) == trim(s),
        trim(s).len() > 0 ==> !is_ws(trim(s)[0]) && !is_ws(trim(s).last()),
{
    let u = trim_start(s);
    let t = trim_end(u);
    lemma_trim_start_props(s);
    lemma_trim_end_props(u);
    if t.len() > 0 {
        assert(t[0] == u[0]);
    }
    lemma_trim_start_is(t, 0);
    assert(t.skip(0) =~= t);
    lemma_trim_end_is(t, t.len() as int);
    assert(t.take(t.len() as int) =~= t);
}

pub proof fn lemma_digits_value_push(s: Seq<char>, c: char)
    ensures
        digits_value(s.push(c)) == digits_value(s) * 10 + digit_value(c),
{
    assert(s.push(c).drop_last() == s);
}

pub proof fn lemma_digits_value_nonneg(s: Seq<char>)
    requires
        all_digits(s),
    ensures
        digits_value(s) >= 0,
    decreases s.len(),
{
    if s.len() > 0 {
        assert(is_digit(s[s.len() - 1]));
        lemma_digits_value_nonneg(s.drop_last());
    }
}

pub proof fn lemma_digits_value_prefix_bound(s: Seq<char>, k: int)
    requires
        all_digits(s),
        0 <= k <= s.len(),
    ensures
        digits_value(s) >= digits_value(s.take(k)),
    decreases s.len() - k,
{
    if k < s.len() {
        lemma_digits_value_prefix_bound(s, k + 1);
        assert(s.take(k + 1).drop_last() == s.take(k));
        assert(is_digit(s[k]));
        assert(all_digits(s.take(k))) by {
            assert forall|i: int| 0 <= i < s.take(k).len() implies #[trigger] is_digit(
                s.take(k)[i],
            ) by {
                assert(s.take(k)[i] == s[i]);
            }
        }
        lemma_digits_value_nonneg(s.take(k));
    } else {
        assert(s.take(k) == s);
    }
}

/// The characters of `s`, in order.
pub fn chars_of(s: &str) -> (out: Vec<char>)
    ensures
        out@ == s@,
{
    broadcast use vstd::string::group_string_axioms;

    let mut out: Vec<char> = Vec::new();
    for c in it: s.chars()
        invariant
            out@ == it.seq().take(it.index() as int),
            it.seq() == s@,
    {
        out.push(c);
    }
    out
}

/// Appends one character to a `String` (std's `String::push`).
#[verifier::external_body]
fn string_push(s: &mut String, c: char)
    ensures
        final(s)@ == old(s)@.push(c),
{
    s.push(c);
}

/// A `String` holding exactly the given characters.
pub fn string_of(v: &[char]) -> (out: String)
    ensures
        out@ == v@,
{
    let mut out = String::new();
    let mut i: usize = 0;
    while i < v.len()
        invariant
            i <= v@.len(),
            out@ == v@.take(i as int),
        decreases v.len() - i,
    {
        string_push(&mut out, v[i]);
        i += 1;
        assert(out@ == v@.take(i as int));
    }
    assert(v@.take(v@.len() as int) == v@);
    out
}

/// A `String` holding the characters of a string literal or slice.
pub fn string_from(s: &str) -> (out: String)
    ensures
        out@ == s@,
{
    let v = chars_of(s);
    string_of(&v)
}

/// Copies a `String`, keeping its characters.
pub fn copy_string(s: &String) -> (out: String)
    ensures
        out@ == s@,
{
    s.clone()
}

/// Appends all characters of `b` to `a`.
pub fn append(a: &mut Vec<char>, b: &[char])
    ensures
        final(a)@ == old(a)@ + b@,
{
    let mut i: usize = 0;
    while i < b.len()
        invariant
            i <= b@.len(),
            a@ == old(a)@ + b@.take(i as int),
        decreases b.len() - i,
    {
        a.push(b[i]);
        i += 1;
        assert(a@ == old(a)@ + b@.take(i as int));
    }
    assert(b@.take(b@.len() as int) == b@);
}

/// Appends the characters of a literal to `a`.
pub fn append_str(a: &mut Vec<char>, b: &str)
    ensures
        final(a)@ == old(a)@ + b@,
{
    let v = chars_of(b);
    append(a, &v);
}

/// Whether two character slices are equal.
pub fn eq_chars(a: &[char], b: &[char]) -> (r: bool)
    ensures
        r == (a@ == b@),
{
    if a.len() != b.len() {
        return false;
    }
    let mut i: usize = 0;
    while i < a.len()
        invariant
            a@.len() == b@.len(),
            i <= a@.len(),
            forall|j: int| 0 <= j < i ==> a@[j] == b@[j],
        decreases a.len() - i,
    {
        if a[i] != b[i] {
            return false;
        }
        i += 1;
    }
    assert(a@ =~= b@);
    true
}

/// Whether a character slice equals a literal.
pub fn eq_str(a: &[char], b: &str) -> (r: bool)
    ensures
        r == (a@ == b@),
{
    let v = chars_of(b);
    eq_chars(a, &v)
}

/// Whether `c` is a Unicode white-space character.
pub fn is_ws_char(c: char) -> (r: bool)
    ensures
        r == is_ws(c),
{
    let u = c as u32;
    (9 <= u && u <= 13) || u == 32 || u == 0x85 || u == 0xa0 || u == 0x1680 || (0x2000 <= u && u
        <= 0x200a) || u == 0x2028 || u == 0x2029 || u == 0x202f || u == 0x205f || u == 0x3000
}

/// `str::trim`.
pub fn trim_chars(s: &[char]) -> (out: Vec<char>)
    ensures
        out@ == trim(s@),
{
    let mut i: usize = 0;
    while i < s.len() && is_ws_char(s[i])
        invariant
            i <= s@.len(),
            forall|j: int| 0 <= j < i ==> is_ws(s@[j]),
        decreases s.len() - i,
    {
        i += 1;
    }
    proof {
        lemma_trim_start_is(s@, i as int);
    }
    let mut k: usize = s.len();
    while k > i && is_ws_char(s[k - 1])
        invariant
            i <= k <= s@.len(),
            forall|j: int| k <= j < s@.len() ==> is_ws(s@[j]),
        decreases k,
    {
        k -= 1;
    }
    let ghost t = s@.skip(i as int);
    proof {
        assert forall|j: int| k - i <= j < t.len() implies is_ws(t[j]) by {
            assert(t[j] == s@[j + i]);
        }
        if k > i {
            assert(t[k - i - 1] == s@[k - 1]);
        }
        lemma_trim_end_is(t, k - i);
    }
    let mut out: Vec<char> = Vec::new();
    let mut p: usize = i;
    while p < k
        invariant
            i <= p <= k <= s@.len(),
            out@ == s@.subrange(i as int, p as int),
        decreases k - p,
    {
        out.push(s[p]);
        p += 1;
        assert(out@ == s@.subrange(i as int, p as int));
    }
    assert(t.take(k - i) == s@.subrange(i as int, k as int));
    out
}

/// The characters of `s`, trimmed.
pub fn trimmed(s: &str) -> (out: Vec<char>)
    ensures
        out@ == trim(s@),
{
    let v = chars_of(s);
    trim_chars(&v)
}

/// First position of `c`.
pub fn find_char(s: &[char], c: char) -> (r: Option<usize>)
    ensures
        match r {
            Some(i) => index_of(s@, c) == i && i < s@.len(),
            None => index_of(s@, c) == -1,
        },
{
    let mut i: usize = 0;
    while i < s.len()
        invariant
            i <= s@.len(),
            forall|j: int| 0 <= j < i ==> s@[j] != c,
        decreases s.len() - i,
    {
        if s[i] == c {
            proof {
                lemma_index_of_is(s@, c, i as int);
            }
            return Some(i);
        }
        i += 1;
    }
    proof {
        lemma_index_of_is(s@, c, i as int);
    }
    None
}

/// Last position of `c`.
pub fn rfind_char(s: &[char], c: char) -> (r: Option<usize>)
    ensures
        match r {
            Some(i) => last_index_of(s@, c) == i && i < s@.len(),
            None => last_index_of(s@, c) == -1,
        },
{
    let mut k: usize = s.len();
    while k > 0
        invariant
            k <= s@.len(),
            forall|j: int| k <= j < s@.len() ==> s@[j] != c,
        decreases k,
    {
        if s[k - 1] == c {
            proof {
                lemma_last_index_of_is(s@, c, k - 1);
            }
            return Some(k - 1);
        }
        k -= 1;
    }
    proof {
        lemma_last_index_of_is(s@, c, -1);
    }
    None
}

/// Whether `c` occurs in `s`.
pub fn has_char(s: &[char], c: char) -> (r: bool)
    ensures
        r == s@.contains(c),
        r == (index_of(s@, c) >= 0),
{
    proof {
        lemma_index_of_bounds(s@, c);
    }
    match find_char(s, c) {
        Some(_) => true,
        None => {
            assert(!s@.contains(c));
            false
        },
    }
}

/// `s[from..to]` as a new vector.
pub fn slice_vec(s: &[char], from: usize, to: usize) -> (out: Vec<char>)
    requires
        from <= to <= s@.len(),
    ensures
        out@ == s@.subrange(from as int, to as int),
{
    let mut out: Vec<char> = Vec::new();
    let mut p: usize = from;
    while p < to
        invariant
            from <= p <= to <= s@.len(),
            out@ == s@.subrange(from as int, p as int),
        decreases to - p,
    {
        out.push(s[p]);
        p += 1;
        assert(out@ == s@.subrange(from as int, p as int));
    }
    out
}

/// `str::split_once(c)`.
pub fn split_once_chars(s: &[char], c: char) -> (r: Option<(Vec<char>, Vec<char>)>)
    ensures
        match r {
            Some((a, b)) => split_once(s@, c) == Some((a@, b@)),
            None => split_once(s@, c) is None,
        },
{
    proof {
        lemma_index_of_bounds(s@, c);
    }
    match find_char(s, c) {
        Some(i) => {
            let n = s.len();
            assert(i < n);
            let a = slice_vec(s, 0, i);
            let b = slice_vec(s, i + 1, n);
            assert(a@ == s@.take(i as int));
            assert(b@ == s@.skip(i + 1));
            Some((a, b))
        },
        None => None,
    }
}

/// `str::rsplit_once(c)`.
pub fn rsplit_once_chars(s: &[char], c: char) -> (r: Option<(Vec<char>, Vec<char>)>)
    ensures
        match r {
            Some((a, b)) => rsplit_once(s@, c) == Some((a@, b@)),
            None => rsplit_once(s@, c) is None,
        },
{
    match rfind_char(s, c) {
        Some(i) => {
            let n = s.len();
            assert(i < n);
            let a = slice_vec(s, 0, i);
            let b = slice_vec(s, i + 1, n);
            assert(a@ == s@.take(i as int));
            assert(b@ == s@.skip(i + 1));
            Some((a, b))
        },
        None => None,
    }
}

/// `str::split(c)`.
pub fn split_chars(s: &[char], c: char) -> (out: Vec<Vec<char>>)
    ensures
        views(out@) == split(s@, c),
{
    let mut out: Vec<Vec<char>> = Vec::new();
    let mut rest: Vec<char> = slice_vec(s, 0, s.len());
    assert(rest@ == s@);
    loop
        invariant
            views(out@) + split(rest@, c) == split(s@, c),
        decreases rest@.len(),
    {
        proof {
            lemma_index_of_bounds(rest@, c);
        }
        match find_char(&rest, c) {
            Some(i) => {
                let n = rest.len();
                assert(i < n);
                let piece = slice_vec(&rest, 0, i);
                let tail = slice_vec(&rest, i + 1, n);
                let ghost old_out = views(out@);
                let ghost old_rest = rest@;
                out.push(piece);
                assert(views(out@) =~= old_out.push(old_rest.take(i as int)));
                assert(split(old_rest, c) == seq![old_rest.take(i as int)] + split(
                    old_rest.skip(i + 1),
                    c,
                ));
                rest = tail;
                assert(rest@ == old_rest.skip(i + 1));
                assert(views(out@) + split(rest@, c) =~= old_out + split(old_rest, c));
            },
            None => {
                let ghost old_out = views(out@);
                let ghost old_rest = rest@;
                out.push(rest);
                assert(split(old_rest, c) == seq![old_rest]);
                assert(views(out@) =~= old_out + split(old_rest, c));
                return out;
            },
        }
    }
}

/// Whether `s` starts with `p`.
pub fn starts_with_chars(s: &[char], p: &[char]) -> (r: bool)
    ensures
        r == starts_with(s@, p@),
{
    if p.len() > s.len() {
        return false;
    }
    let mut i: usize = 0;
    while i < p.len()
        invariant
            p@.len() <= s@.len(),
            i <= p@.len(),
            forall|j: int| 0 <= j < i ==> s@[j] == p@[j],
        decreases p.len() - i,
    {
        if s[i] != p[i] {
            assert(s@.take(p@.len() as int)[i as int] == s@[i as int]);
            return false;
        }
        i += 1;
    }
    assert(s@.take(p@.len() as int) =~= p@);
    true
}

/// Whether `s` ends with `p`.
pub fn ends_with_chars(s: &[char], p: &[char]) -> (r: bool)
    ensures
        r == ends_with(s@, p@),
{
    if p.len() > s.len() {
        return false;
    }
    let off = s.len() - p.len();
    let mut i: usize = 0;
    while i < p.len()
        invariant
            p@.len() <= s@.len(),
            off == s@.len() - p@.len(),
            off + p@.len() == s@.len(),
            s@.len() == s.len(),
            i <= p@.len(),
            forall|j: int| 0 <= j < i ==> s@[off + j] == p@[j],
        decreases p.len() - i,
    {
        if s[off + i] != p[i] {
            assert(s@.skip(off as int)[i as int] == s@[off + i]);
            return false;
        }
        i += 1;
    }
    assert(s@.skip(off as int) =~= p@);
    true
}

/// Whether `s` ends with the literal `p`.
pub fn ends_with_str(s: &[char], p: &str) -> (r: bool)
    ensures
        r == ends_with(s@, p@),
{
    let v = chars_of(p);
    ends_with_chars(s, &v)
}

/// Whether `s` starts with the literal `p`.
pub fn starts_with_str(s: &[char], p: &str) -> (r: bool)
    ensures
        r == starts_with(s@, p@),
{
    let v = chars_of(p);
    starts_with_chars(s, &v)
}

/// `str::to_ascii_lowercase`.
pub fn lower_chars(s: &[char]) -> (out: Vec<char>)
    ensures
        out@ == lower(s@),
{
    let mut out: Vec<char> = Vec::new();
    let mut i: usize = 0;
    while i < s.len()
        invariant
            i <= s@.len(),
            out@ == lower(s@.take(i as int)),
        decreases s.len() - i,
    {
        let c = s[i];
        let d = if 'A' <= c && c <= 'Z' {
            ((c as u8) + 32u8) as char
        } else {
            c
        };
        out.push(d);
        i += 1;
        assert(out@ =~= lower(s@.take(i as int)));
    }
    assert(s@.take(s@.len() as int) == s@);
    out
}

/// `str::parse` into an integer whose range is `lo..=hi`; a leading `-` is
/// accepted only when `signed`.
pub fn parse_int_chars(s: &[char], signed: bool, lo: i64, hi: i64) -> (r: Option<i64>)
    requires
        lo <= 0 <= hi,
    ensures
        match r {
            Some(v) => parse_in_range(s@, signed, lo as int, hi as int) == Some(v as int),
            None => parse_in_range(s@, signed, lo as int, hi as int) is None,
        },
{
    if s.len() == 0 {
        return None;
    }
    let neg = signed && s[0] == '-';
    let start: usize = if s[0] == '+' || neg {
        1
    } else {
        0
    };
    if start >= s.len() {
        return None;
    }
    let ghost body = s@.skip(start as int);
    assert(start == 1 ==> body =~= s@.drop_first());
    assert(start == 0 ==> body =~= s@);
    let limit: i128 = if neg {
        -(lo as i128)
    } else {
        hi as i128
    };
    let mut acc: i128 = 0;
    let mut too_big = false;
    let mut i: usize = start;
    while i < s.len()
        invariant
            start <= i <= s@.len(),
            start < s@.len(),
            body == s@.skip(start as int),
            start == 1 ==> body == s@.drop_first(),
            start == 0 ==> body == s@,
            (start == 1) == (s@[0] == '+' || (signed && s@[0] == '-')),
            start <= 1,
            neg == (signed && s@[0] == '-'),
            limit == (if neg { -lo } else { hi as int }),
            0 <= limit <= 0x8000_0000_0000_0000,
            all_digits(body.take(i - start)),
            !too_big ==> acc == digits_value(body.take(i - start)),
            !too_big ==> 0 <= acc <= limit,
            too_big ==> digits_value(body.take(i - start)) > limit,
        decreases s.len() - i,
    {
        let c = s[i];
        let ghost prev = body.take(i - start);
        assert(body.take(i - start + 1) == prev.push(c));
        if !('0' <= c && c <= '9') {
            proof {
                assert(body[i - start] == c);
                assert(!is_digit(body[i - start]));
                assert(!all_digits(body));
            }
            return None;
        }
        let d = (c as u32 - '0' as u32) as i128;
        proof {
            lemma_digits_value_push(prev, c);
            assert(all_digits(prev.push(c))) by {
                assert forall|k: int| 0 <= k < prev.push(c).len() implies #[trigger] is_digit(
                    prev.push(c)[k],
                ) by {
                    if k < prev.len() {
                        assert(prev.push(c)[k] == prev[k]);
                    }
                }
            }
            lemma_digits_value_nonneg(prev);
        }
        if !too_big {
            let next = acc * 10 + d;
            if next > limit {
                too_big = true;
            } else {
                acc = next;
            }
        }
        i += 1;
    }
    assert(body.take(s@.len() - start) == body);
    assert(body.len() > 0);
    if too_big {
        return None;
    }
    if neg {
        Some((-acc) as i64)
    } else {
        Some(acc as i64)
    }
}

/// `str::parse::<usize>`: an optional `+` and at least one decimal digit,
/// with a value that fits.
pub fn parse_usize_chars(s: &[char]) -> (r: Option<usize>)
    ensures
        match r {
            Some(v) => parse_in_range(s@, false, 0, usize::MAX as int) == Some(v as int),
            None => parse_in_range(s@, false, 0, usize::MAX as int) is None,
        },
{
    if s.len() == 0 {
        return None;
    }
    let start: usize = if s[0] == '+' {
        1
    } else {
        0
    };
    if start >= s.len() {
        return None;
    }
    let ghost body = s@.skip(start as int);
    assert(start == 1 ==> body =~= s@.drop_first());
    assert(start == 0 ==> body =~= s@);
    let limit: u128 = usize::MAX as u128;
    let mut acc: u128 = 0;
    let mut too_big = false;
    let mut i: usize = start;
    while i < s.len()
        invariant
            start <= i <= s@.len(),
            start < s@.len(),
            body == s@.skip(start as int),
            start == 1 ==> body == s@.drop_first(),
            start == 0 ==> body == s@,
            (start == 1) == (s@[0] == '+'),
            start <= 1,
            limit == usize::MAX,
            all_digits(body.take(i - start)),
            !too_big ==> acc == digits_value(body.take(i - start)),
            !too_big ==> acc <= limit,
            too_big ==> digits_value(body.take(i - start)) > limit,
        decreases s.len() - i,
    {
        let c = s[i];
        let ghost prev = body.take(i - start);
        assert(body.take(i - start + 1) == prev.push(c));
        if !('0' <= c && c <= '9') {
            proof {
                assert(body[i - start] == c);
                assert(!is_digit(body[i - start]));
                assert(!all_digits(body));
            }
            return None;
        }
        let d = (c as u32 - '0' as u32) as u128;
        proof {
            lemma_digits_value_push(prev, c);
            assert(all_digits(prev.push(c))) by {
                assert forall|k: int| 0 <= k < prev.push(c).len() implies #[trigger] is_digit(
                    prev.push(c)[k],
                ) by {
                    if k < prev.len() {
                        assert(prev.push(c)[k] == prev[k]);
                    }
                }
            }
            lemma_digits_value_nonneg(prev);
        }
        if !too_big {
            let next = acc * 10 + d;
            if next > limit {
                too_big = true;
            } else {
                acc = next;
            }
        }
        i += 1;
    }
    assert(body.take(s@.len() - start) == body);
    assert(body.len() > 0);
    if too_big {
        return None;
    }
    Some(acc as usize)
}

/// Appends the decimal digits of `n`.
pub fn push_nat(out: &mut Vec<char>, n: u64)
    ensures
        final(out)@ == old(out)@ + nat_text(n as nat),
    decreases n,
{
    if n >= 10 {
        push_nat(out, n / 10);
    }
    let d = n % 10;
    let c = if d == 0 {
        '0'
    } else if d == 1 {
        '1'
    } else if d == 2 {
        '2'
    } else if d == 3 {
        '3'
    } else if d == 4 {
        '4'
    } else if d == 5 {
        '5'
    } else if d == 6 {
        '6'
    } else if d == 7 {
        '7'
    } else if d == 8 {
        '8'
    } else {
        '9'
    };
    out.push(c);
    proof {
        if n >= 10 {
            assert(nat_text(n as nat) == nat_text((n / 10) as nat).push(digit_char((n % 10) as int)));
        }
    }
    assert(final(out)@ =~= old(out)@ + nat_text(n as nat));
}

/// Appends what `Display` prints for `n`.
pub fn push_int(out: &mut Vec<char>, n: i64)
    ensures
        final(out)@ == old(out)@ + int_text(n as int),
{
    if n < 0 {
        out.push('-');
        let m: u64 = (-(n as i128)) as u64;
        push_nat(out, m);
        assert(final(out)@ =~= old(out)@ + int_text(n as int));
    } else {
        push_nat(out, n as u64);
    }
}

/// Appends what `Display` prints for `b`.
pub fn push_bool(out: &mut Vec<char>, b: bool)
    ensures
        final(out)@ == old(out)@ + bool_text(b),
{
    if b {
        append_str(out, "true");
        proof {
            reveal_strlit("true");
        }
    } else {
        append_str(out, "false");
        proof {
            reveal_strlit("false");
        }
    }
    assert(final(out)@ =~= old(out)@ + bool_text(b));
}

/// Joins pieces with `sep` between them.
pub fn join_chars(parts: &Vec<Vec<char>>, sep: char) -> (out: Vec<char>)
    ensures
        out@ == join(views(parts@), sep),
{
    let mut out: Vec<char> = Vec::new();
    let mut i: usize = 0;
    while i < parts.len()
        invariant
            i <= parts@.len(),
            out@ == join(views(parts@).take(i as int), sep),
        decreases parts.len() - i,
    {
        let ghost pv = views(parts@);
        assert(pv.take(i + 1).drop_last() == pv.take(i as int));
        assert(pv.take(i + 1).last() == parts@[i as int]@);
        if i > 0 {
            out.push(sep);
        } else {
            assert(pv.take(0) =~= Seq::<Seq<char>>::empty());
        }
        append(&mut out, parts[i].as_slice());
        i += 1;
    }
    assert(views(parts@).take(parts@.len() as int) == views(parts@));
    out
}

/// The decimal text of a natural number is a non-empty run of digits that
/// reads back as the number.
pub proof fn lemma_nat_text_digits(n: nat)
    ensures
        nat_text(n).len() >= 1,
        all_digits(nat_text(n)),
        digits_value(nat_text(n)) == n,
    decreases n,
{
    if n >= 10 {
        lemma_nat_text_digits(n / 10);
        lemma_digits_value_push(nat_text(n / 10), digit_char((n % 10) as int));
        let t = nat_text(n);
        assert forall|i: int| 0 <= i < t.len() implies #[trigger] is_digit(t[i]) by {
            if i < t.len() - 1 {
                assert(t[i] == nat_text(n / 10)[i]);
            }
        }
        assert(digit_value(digit_char((n % 10) as int)) == n % 10);
        assert((n / 10) * 10 + n % 10 == n) by (nonlinear_arith);
    } else {
        assert(digit_value(digit_char(n as int)) == n);
        assert(nat_text(n).drop_last() =~= Seq::<char>::empty());
        assert(digits_value(nat_text(n)) == digits_value(Seq::<char>::empty()) * 10 + digit_value(
            nat_text(n).last(),
        ));
    }
}

/// Reading back what `Display` prints for an integer.
pub proof fn lemma_parse_int_text(n: int)
    ensures
        parse_int(int_text(n), true) == Some(n),
        int_text(n).len() >= 1,
        forall|i: int| 0 <= i < int_text(n).len() ==> #[trigger] int_text(n)[i] != '.',
{
    if n < 0 {
        lemma_nat_text_digits((-n) as nat);
        let t = int_text(n);
        assert(t.drop_first() =~= nat_text((-n) as nat));
        assert forall|i: int| 0 <= i < t.len() implies #[trigger] t[i] != '.' by {
            if i > 0 {
                assert(t[i] == nat_text((-n) as nat)[i - 1]);
                assert(is_digit(nat_text((-n) as nat)[i - 1]));
            }
        }
    } else {
        lemma_nat_text_digits(n as nat);
        assert(is_digit(int_text(n)[0]));
        let t = int_text(n);
        assert forall|i: int| 0 <= i < t.len() implies #[trigger] t[i] != '.' by {
            assert(is_digit(t[i]));
        }
    }
}

/// `split` of a text with no separator gives the text alone.
pub proof fn lemma_split_none(s: Seq<char>, c: char)
    requires
        forall|i: int| 0 <= i < s.len() ==> s[i] != c,
    ensures
        split(s, c) == seq![s],
{
    lemma_index_of_is(s, c, s.len() as int);
}

/// `split` at a first separator after a piece without one.
pub proof fn lemma_split_first(p: Seq<char>, q: Seq<char>, c: char)
    requires
        forall|i: int| 0 <= i < p.len() ==> p[i] != c,
    ensures
        split(p + seq![c] + q, c) == seq![p] + split(q, c),
{
    let s = p + seq![c] + q;
    assert forall|j: int| 0 <= j < p.len() implies s[j] != c by {
        assert(s[j] == p[j]);
    }
    lemma_index_of_is(s, c, p.len() as int);
    assert(s.take(p.len() as int) =~= p);
    assert(s.skip(p.len() as int + 1) =~= q);
}

/// Text with no white space at either end is its own trim.
pub proof fn lemma_trim_unchanged(s: Seq<char>)
    requires
        s.len() > 0,
        !is_ws(s[0]),
        !is_ws(s.last()),
    ensures
        trim(s) == s,
{
    assert(trim_start(s) == s);
}

/// `split_once` at the first separator after a piece without one.
pub proof fn lemma_split_once_first(p: Seq<char>, q: Seq<char>, c: char)
    requires
        forall|i: int| 0 <= i < p.len() ==> p[i] != c,
    ensures
        split_once(p + seq![c] + q, c) == Some((p, q)),
{
    let s = p + seq![c] + q;
    assert forall|j: int| 0 <= j < p.len() implies s[j] != c by {
        assert(s[j] == p[j]);
    }
    lemma_index_of_is(s, c, p.len() as int);
    assert(s.take(p.len() as int) =~= p);
    assert(s.skip(p.len() as int + 1) =~= q);
}

/// Joining with a separator, seen from the front.
pub proof fn lemma_join_front(xs: Seq<Seq<char>>, c: char)
    requires
        xs.len() >= 2,
    ensures
        join(xs, c) == xs[0] + seq![c] + join(xs.drop_first(), c),
    decreases xs.len(),
{
    if xs.len() == 2 {
        assert(xs.drop_last() =~= seq![xs[0]]);
        assert(xs.drop_first() =~= seq![xs[1]]);
        assert(join(xs.drop_last(), c) == xs[0]);
        assert(join(xs.drop_first(), c) == xs[1]);
        assert(join(xs, c) == join(xs.drop_last(), c).push(c) + xs.last());
        assert(join(xs, c) =~= xs[0] + seq![c] + xs[1]);
    } else {
        lemma_join_front(xs.drop_last(), c);
        assert(xs.drop_last().drop_first() =~= xs.drop_first().drop_last());
        assert(xs.drop_first().last() == xs.last());
        assert(join(xs, c) =~= xs[0] + seq![c] + join(xs.drop_first(), c));
    }
}

/// Splitting a join gives the pieces back when none holds the separator.
pub proof fn lemma_split_join(xs: Seq<Seq<char>>, c: char)
    requires
        xs.len() >= 1,
        forall|k: int, i: int| 0 <= k < xs.len() && 0 <= i < xs[k].len() ==> #[trigger] xs[k][i] != c,
    ensures
        split(join(xs, c), c) == xs,
    decreases xs.len(),
{
    if xs.len() == 1 {
        lemma_split_none(xs[0], c);
        assert(seq![xs[0]] =~= xs);
    } else {
        lemma_join_front(xs, c);
        let rest = xs.drop_first();
        assert forall|k: int, i: int| 0 <= k < rest.len() && 0 <= i < rest[k].len() implies #[trigger] rest[k][i]
            != c by {
            assert(rest[k] == xs[k + 1]);
        }
        lemma_split_join(rest, c);
        assert forall|i: int| 0 <= i < xs[0].len() implies xs[0][i] != c by {}
        lemma_split_first(xs[0], join(rest, c), c);
        assert(seq![xs[0]] + rest =~= xs);
    }
}

} // verus!
