//! Character-level text handling: trimming, line and token splitting,
//! unsigned integer parsing and decimal rendering, each stated against the
//! behaviour of the corresponding `str` operation.

use vstd::prelude::*;
use vstd::std_specs::iter::IteratorSpec;

verus! {

/// The characters of `s`, in order.
pub fn chars_of(s: &str) -> (v: Vec<char>)
    ensures
        v@ == s@,
{
    broadcast use vstd::string::group_string_axioms;

    let mut v: Vec<char> = Vec::new();
    let mut it = s.chars();
    assert(it.remaining() == s@);
    loop
        invariant
            s@ == v@ + it.remaining(),
            it.obeys_prophetic_iter_laws(),
            it.decrease() is Some,
        ensures
            v@ == s@,
        decreases it.decrease()->0,
    {
        match it.next() {
            Some(c) => {
                v.push(c);
            },
            None => {
                assert(v@ =~= s@);
                break;
            },
        }
    }
    v
}

} // verus!

verus! {

/// The sequence of views of a sequence of strings.
pub open spec fn views(v: Seq<String>) -> Seq<Seq<char>> {
    v.map_values(|x: String| x@)
}

// ── White space and trimming ────────────────────────────────────────────────

/// Unicode `White_Space`, the property that `char::is_whitespace` tests.
pub open spec fn is_white_space(c: char) -> bool {
    let v = c as u32;
    (0x9 <= v <= 0xd) || v == 0x20 || v == 0x85 || v == 0xa0 || v == 0x1680 || (0x2000 <= v
        <= 0x200a) || v == 0x2028 || v == 0x2029 || v == 0x202f || v == 0x205f || v == 0x3000
}

pub fn white_space(c: char) -> (b: bool)
    ensures
        b == is_white_space(c),
{
    let v = c as u32;
    (0x9 <= v && v <= 0xd) || v == 0x20 || v == 0x85 || v == 0xa0 || v == 0x1680 || (0x2000 <= v
        && v <= 0x200a) || v == 0x2028 || v == 0x2029 || v == 0x202f || v == 0x205f || v == 0x3000
}

/// `s` without its leading white space.
pub open spec fn trim_start(s: Seq<char>) -> Seq<char>
    decreases s.len(),
{
    if s.len() > 0 && is_white_space(s[0]) {
        trim_start(s.drop_first())
    } else {
        s
    }
}

/// `s` without its trailing white space.
pub open spec fn trim_end(s: Seq<char>) -> Seq<char>
    decreases s.len(),
{
    if s.len() > 0 && is_white_space(s.last()) {
        trim_end(s.drop_last())
    } else {
        s
    }
}

/// `s` without leading and trailing white space, as `str::trim` gives it.
pub open spec fn trim(s: Seq<char>) -> Seq<char> {
    trim_end(trim_start(s))
}

/// Bounds `(a, b)` such that `cs[a..b]` is `cs[lo..hi]` trimmed.
pub fn trim_bounds(cs: &Vec<char>, lo: usize, hi: usize) -> (r: (usize, usize))
    requires
        lo <= hi <= cs@.len(),
    ensures
        lo <= r.0 <= r.1 <= hi,
        cs@.subrange(r.0 as int, r.1 as int) == trim(cs@.subrange(lo as int, hi as int)),
{
    let mut a: usize = lo;
    while a < hi && white_space(cs[a])
        invariant
            lo <= a <= hi <= cs@.len(),
            trim_start(cs@.subrange(a as int, hi as int)) == trim_start(
                cs@.subrange(lo as int, hi as int),
            ),
        decreases hi - a,
    {
        assert(cs@.subrange(a as int, hi as int).drop_first() =~= cs@.subrange(a + 1, hi as int));
        a += 1;
    }
    assert(trim_start(cs@.subrange(a as int, hi as int)) == cs@.subrange(a as int, hi as int));
    let mut b: usize = hi;
    while b > a && white_space(cs[b - 1])
        invariant
            lo <= a <= b <= hi <= cs@.len(),
            trim_end(cs@.subrange(a as int, b as int)) == trim_end(
                cs@.subrange(a as int, hi as int),
            ),
        decreases b - a,
    {
        assert(cs@.subrange(a as int, b as int).drop_last() =~= cs@.subrange(a as int, b - 1));
        b -= 1;
    }
    assert(trim_end(cs@.subrange(a as int, b as int)) == cs@.subrange(a as int, b as int));
    (a, b)
}

/// `s` trimmed of white space at both ends.
pub fn trim_str<'a>(s: &'a str) -> (r: &'a str)
    ensures
        r@ == trim(s@),
{
    let cs = chars_of(s);
    let (a, b) = trim_bounds(&cs, 0, cs.len());
    assert(cs@.subrange(0, cs@.len() as int) =~= cs@);
    s.substring_char(a, b)
}

// ── Searching ───────────────────────────────────────────────────────────────

/// Index of the first `c` in `s` at or after `start`, or `s.len()` when there
/// is none.
pub open spec fn find_from(s: Seq<char>, start: nat, c: char) -> nat
    decreases s.len() - start,
{
    if start >= s.len() {
        s.len()
    } else if s[start as int] == c {
        start
    } else {
        find_from(s, start + 1, c)
    }
}

pub proof fn lemma_find_from(s: Seq<char>, start: nat, c: char)
    requires
        start <= s.len(),
    ensures
        start <= find_from(s, start, c) <= s.len(),
        find_from(s, start, c) < s.len() ==> s[find_from(s, start, c) as int] == c,
        forall|k: int| start <= k < find_from(s, start, c) ==> s[k] != c,
    decreases s.len() - start,
{
    if start < s.len() && s[start as int] != c {
        lemma_find_from(s, start + 1, c);
    }
}

/// Index of the last `c` in `s`, or -1 when there is none.
pub open spec fn rfind(s: Seq<char>, c: char) -> int
    decreases s.len(),
{
    if s.len() == 0 {
        -1
    } else if s.last() == c {
        s.len() - 1
    } else {
        rfind(s.drop_last(), c)
    }
}

pub proof fn lemma_rfind(s: Seq<char>, c: char)
    ensures
        -1 <= rfind(s, c) < s.len(),
        rfind(s, c) >= 0 ==> s[rfind(s, c)] == c,
        forall|k: int| rfind(s, c) < k < s.len() ==> s[k] != c,
    decreases s.len(),
{
    if s.len() > 0 && s.last() != c {
        lemma_rfind(s.drop_last(), c);
        assert forall|k: int| rfind(s, c) < k < s.len() implies s[k] != c by {
            if k < s.len() - 1 {
                assert(s.drop_last()[k] == s[k]);
            }
        }
    }
}

/// `find_from` over a vector of characters.
pub fn find_char(cs: &Vec<char>, start: usize, c: char) -> (e: usize)
    requires
        start <= cs@.len(),
    ensures
        e == find_from(cs@, start as nat, c),
        start <= e <= cs@.len(),
{
    proof {
        lemma_find_from(cs@, start as nat, c);
    }
    let mut i: usize = start;
    while i < cs.len() && cs[i] != c
        invariant
            start <= i <= cs@.len(),
            find_from(cs@, i as nat, c) == find_from(cs@, start as nat, c),
        decreases cs@.len() - i,
    {
        i += 1;
    }
    i
}

/// `rfind` over the characters `cs[lo..hi]`, as an index into `cs`.
pub fn rfind_char(cs: &Vec<char>, lo: usize, hi: usize, c: char) -> (r: Option<usize>)
    requires
        lo <= hi <= cs@.len(),
    ensures
        match r {
            Some(k) => lo <= k < hi && k - lo == rfind(cs@.subrange(lo as int, hi as int), c),
            None => rfind(cs@.subrange(lo as int, hi as int), c) == -1,
        },
{
    let mut j: usize = hi;
    while j > lo && cs[j - 1] != c
        invariant
            lo <= j <= hi <= cs@.len(),
            rfind(cs@.subrange(lo as int, j as int), c) == rfind(
                cs@.subrange(lo as int, hi as int),
                c,
            ),
        decreases j - lo,
    {
        assert(cs@.subrange(lo as int, j as int).drop_last() =~= cs@.subrange(lo as int, j - 1));
        j -= 1;
    }
    if j == lo {
        None
    } else {
        Some(j - 1)
    }
}

/// Whether `s` begins with `p`.
pub open spec fn has_prefix(s: Seq<char>, p: Seq<char>) -> bool {
    p.len() <= s.len() && s.subrange(0, p.len() as int) == p
}

pub fn starts_with(s: &str, p: &str) -> (b: bool)
    ensures
        b == has_prefix(s@, p@),
{
    let cs = chars_of(s);
    let ps = chars_of(p);
    if ps.len() > cs.len() {
        return false;
    }
    let mut i: usize = 0;
    while i < ps.len()
        invariant
            ps@ == p@,
            cs@ == s@,
            ps@.len() <= cs@.len(),
            0 <= i <= ps@.len(),
            forall|k: int| 0 <= k < i ==> cs@[k] == ps@[k],
        decreases ps@.len() - i,
    {
        if cs[i] != ps[i] {
            assert(s@.subrange(0, p@.len() as int)[i as int] != p@[i as int]);
            return false;
        }
        i += 1;
    }
    assert(s@.subrange(0, p@.len() as int) =~= p@);
    true
}

// ── Lines ───────────────────────────────────────────────────────────────────

/// A line's text: a `"\r"` before its `"\n"` terminator is not part of it.
pub open spec fn strip_cr(piece: Seq<char>, terminated: bool) -> Seq<char> {
    if terminated && piece.len() > 0 && piece.last() == '\r' {
        piece.drop_last()
    } else {
        piece
    }
}

/// The lines of `s[start..]`.
pub open spec fn lines_from(s: Seq<char>, start: nat) -> Seq<Seq<char>>
    decreases s.len() - start,
{
    if start >= s.len() {
        seq![]
    } else {
        let e = find_from(s, start, '\n');
        proof {
            lemma_find_from(s, start, '\n');
        }
        if e < s.len() {
            seq![strip_cr(s.subrange(start as int, e as int), true)] + lines_from(s, e + 1)
        } else {
            seq![s.subrange(start as int, e as int)]
        }
    }
}

/// The lines of `s`, as `str::lines` yields them: split at `"\n"` or
/// `"\r\n"`, with no empty line after a final terminator.
pub open spec fn lines(s: Seq<char>) -> Seq<Seq<char>> {
    lines_from(s, 0)
}

/// The first line of `s`, or the empty text when `s` has none
/// (`s.lines().next().unwrap_or("")`).
pub open spec fn first_line(s: Seq<char>) -> Seq<char> {
    if lines(s).len() > 0 {
        lines(s)[0]
    } else {
        seq![]
    }
}

/// Bounds `(i, end, next)` of the line that starts at `i`: its text is
/// `cs[i..end]` and the following line starts at `next`.
fn line_at(cs: &Vec<char>, i: usize) -> (r: (usize, usize))
    requires
        i < cs@.len(),
    ensures
        ({
            let e = find_from(cs@, i as nat, '\n');
            &&& i <= r.0 <= cs@.len()
            &&& i < r.1 <= cs@.len()
            &&& r.1 == if e < cs@.len() { e + 1 } else { cs@.len() }
            &&& cs@.subrange(i as int, r.0 as int) == strip_cr(
                cs@.subrange(i as int, e as int),
                e < cs@.len(),
            )
            &&& lines_from(cs@, i as nat) == seq![cs@.subrange(i as int, r.0 as int)] + lines_from(
                cs@,
                r.1 as nat,
            )
        }),
{
    let e = find_char(cs, i, '\n');
    proof {
        lemma_find_from(cs@, i as nat, '\n');
        if e >= cs@.len() {
            assert(lines_from(cs@, e as nat) =~= Seq::<Seq<char>>::empty());
        }
    }
    let mut end: usize = e;
    if e < cs.len() && e > i && cs[e - 1] == '\r' {
        end = e - 1;
        assert(cs@.subrange(i as int, e as int).drop_last() =~= cs@.subrange(i as int, end as int));
    }
    let next: usize = if e < cs.len() {
        e + 1
    } else {
        e
    };
    (end, next)
}

/// The lines of `s`, as `str::lines` yields them.
pub fn split_lines(s: &str) -> (r: Vec<String>)
    ensures
        views(r@) == lines(s@),
{
    let cs = chars_of(s);
    let n = cs.len();
    let mut out: Vec<String> = Vec::new();
    let mut i: usize = 0;
    while i < n
        invariant
            i <= n == cs@.len(),
            cs@ == s@,
            views(out@) + lines_from(s@, i as nat) == lines(s@),
        decreases n - i,
    {
        let (end, next) = line_at(&cs, i);
        let line = s.substring_char(i, end).to_owned();
        let ghost before = out@;
        out.push(line);
        assert(views(out@) =~= views(before).push(line@));
        assert(views(out@) + lines_from(s@, next as nat) =~= views(before) + lines_from(
            s@,
            i as nat,
        ));
        i = next;
    }
    assert(lines_from(s@, i as nat) =~= Seq::<Seq<char>>::empty());
    assert(views(out@) + lines_from(s@, i as nat) =~= views(out@));
    out
}

/// The first line of `s`, or the empty text when there is none.
pub fn first_line_of<'a>(s: &'a str) -> (r: &'a str)
    ensures
        r@ == first_line(s@),
{
    let cs = chars_of(s);
    if cs.len() == 0 {
        proof {
            reveal_strlit("");
        }
        assert(lines(s@) =~= Seq::<Seq<char>>::empty());
        return "";
    }
    let (end, _next) = line_at(&cs, 0);
    s.substring_char(0, end)
}

// ── White-space separated tokens ────────────────────────────────────────────

/// Index of the first white-space character in `s` at or after `start`, or
/// `s.len()` when there is none.
pub open spec fn space_from(s: Seq<char>, start: nat) -> nat
    decreases s.len() - start,
{
    if start >= s.len() {
        s.len()
    } else if is_white_space(s[start as int]) {
        start
    } else {
        space_from(s, start + 1)
    }
}

pub proof fn lemma_space_from(s: Seq<char>, start: nat)
    requires
        start <= s.len(),
    ensures
        start <= space_from(s, start) <= s.len(),
        start < s.len() && !is_white_space(s[start as int]) ==> start < space_from(s, start),
        space_from(s, start) < s.len() ==> is_white_space(s[space_from(s, start) as int]),
        forall|k: int| start <= k < space_from(s, start) ==> !is_white_space(s[k]),
    decreases s.len() - start,
{
    if start < s.len() && !is_white_space(s[start as int]) {
        lemma_space_from(s, start + 1);
    }
}

/// The white-space separated tokens of `s[start..]`.
pub open spec fn tokens_from(s: Seq<char>, start: nat) -> Seq<Seq<char>>
    decreases s.len() - start,
{
    if start >= s.len() {
        seq![]
    } else if is_white_space(s[start as int]) {
        tokens_from(s, start + 1)
    } else {
        let e = space_from(s, start);
        proof {
            lemma_space_from(s, start);
        }
        seq![s.subrange(start as int, e as int)] + tokens_from(s, e)
    }
}

/// The tokens of `s`, as `str::split_whitespace` yields them.
pub open spec fn tokens(s: Seq<char>) -> Seq<Seq<char>> {
    tokens_from(s, 0)
}

/// The tokens of `s`, as `str::split_whitespace` yields them.
pub fn split_tokens(s: &str) -> (r: Vec<String>)
    ensures
        views(r@) == tokens(s@),
{
    let cs = chars_of(s);
    let n = cs.len();
    let mut out: Vec<String> = Vec::new();
    let mut i: usize = 0;
    while i < n
        invariant
            i <= n == cs@.len(),
            cs@ == s@,
            views(out@) + tokens_from(s@, i as nat) == tokens(s@),
        decreases n - i,
    {
        if white_space(cs[i]) {
            i += 1;
        } else {
            let mut e: usize = i + 1;
            proof {
                lemma_space_from(cs@, i as nat);
            }
            while e < n && !white_space(cs[e])
                invariant
                    i < e <= n == cs@.len(),
                    space_from(cs@, e as nat) == space_from(cs@, i as nat),
                decreases n - e,
            {
                e += 1;
            }
            let tok = s.substring_char(i, e).to_owned();
            let ghost before = out@;
            out.push(tok);
            assert(views(out@) =~= views(before).push(tok@));
            assert(views(out@) + tokens_from(s@, e as nat) =~= views(before) + tokens_from(
                s@,
                i as nat,
            ));
            i = e;
        }
    }
    assert(views(out@) + tokens_from(s@, i as nat) =~= views(out@));
    out
}

} // verus!

verus! {

// ── Unsigned integers ───────────────────────────────────────────────────────

pub open spec fn is_ascii_digit(c: char) -> bool {
    48 <= c as u32 <= 57
}

pub open spec fn digit_value(c: char) -> nat {
    (c as u32 - 48) as nat
}

pub open spec fn all_digits(s: Seq<char>) -> bool {
    forall|i: int| 0 <= i < s.len() ==> is_ascii_digit(#[trigger] s[i])
}

/// The number that the decimal digits `s` spell.
pub open spec fn digits_value(s: Seq<char>) -> nat
    decreases s.len(),
{
    if s.len() == 0 {
        0
    } else {
        digits_value(s.drop_last()) * 10 + digit_value(s.last())
    }
}

/// What `FromStr` gives for the unsigned integer type whose largest value is
/// `max`: an optional `+`, then one or more ASCII digits whose value is at
/// most `max`.
pub open spec fn parse_unsigned(s: Seq<char>, max: nat) -> Option<nat> {
    let d = if s.len() > 0 && s[0] == '+' {
        s.drop_first()
    } else {
        s
    };
    if d.len() > 0 && all_digits(d) && digits_value(d) <= max {
        Some(digits_value(d))
    } else {
        None
    }
}

proof fn lemma_digits_prefix(s: Seq<char>, k: int)
    requires
        0 <= k <= s.len(),
        all_digits(s),
    ensures
        digits_value(s.subrange(0, k)) <= digits_value(s),
    decreases s.len(),
{
    if k < s.len() {
        let t = s.drop_last();
        assert(all_digits(t)) by {
            assert forall|i: int| 0 <= i < t.len() implies is_ascii_digit(#[trigger] t[i]) by {
                assert(t[i] == s[i]);
            }
        }
        lemma_digits_prefix(t, k);
        assert(t.subrange(0, k) =~= s.subrange(0, k));
    } else {
        assert(s.subrange(0, k) =~= s);
    }
}

/// `parse_unsigned` over the characters `cs[lo..hi]`.
fn parse_unsigned_range(cs: &Vec<char>, lo: usize, hi: usize, max: u64) -> (r: Option<u64>)
    requires
        lo <= hi <= cs@.len(),
        max >= 9,
    ensures
        match parse_unsigned(cs@.subrange(lo as int, hi as int), max as nat) {
            Some(v) => r == Some(v as u64),
            None => r is None,
        },
{
    let ghost s = cs@.subrange(lo as int, hi as int);
    let mut i: usize = lo;
    if i < hi && cs[i] == '+' {
        i += 1;
    }
    let ghost d = cs@.subrange(i as int, hi as int);
    assert(d == if s.len() > 0 && s[0] == '+' {
        s.drop_first()
    } else {
        s
    });
    if i == hi {
        return None;
    }
    let mut acc: u64 = 0;
    let mut j: usize = i;
    while j < hi
        invariant
            lo <= i <= j <= hi <= cs@.len(),
            d == cs@.subrange(i as int, hi as int),
            s == cs@.subrange(lo as int, hi as int),
            d == if s.len() > 0 && s[0] == '+' {
                s.drop_first()
            } else {
                s
            },
            all_digits(cs@.subrange(i as int, j as int)),
            acc == digits_value(cs@.subrange(i as int, j as int)),
            acc <= max,
            max >= 9,
        decreases hi - j,
    {
        let c = cs[j];
        let v = c as u32;
        if v < 48 || v > 57 {
            assert(!is_ascii_digit(d[j - i]));
            return None;
        }
        let dv = (v - 48) as u64;
        let ghost p = cs@.subrange(i as int, j + 1);
        assert(p.drop_last() =~= cs@.subrange(i as int, j as int));
        assert(digits_value(p) == acc * 10 + dv);
        if acc > (max - dv) / 10 {
            assert(acc * 10 + dv > max) by (nonlinear_arith)
                requires
                    acc > (max - dv) / 10,
                    dv <= 9,
                    max >= 9,
            ;
            proof {
                if all_digits(d) {
                    lemma_digits_prefix(d, j + 1 - i);
                    assert(d.subrange(0, j + 1 - i) =~= p);
                }
            }
            return None;
        }
        assert(acc * 10 + dv <= max) by (nonlinear_arith)
            requires
                acc <= (max - dv) / 10,
                dv <= 9,
                max >= 9,
        ;
        acc = acc * 10 + dv;
        assert(all_digits(p)) by {
            assert forall|k: int| 0 <= k < p.len() implies is_ascii_digit(#[trigger] p[k]) by {
                if k < p.len() - 1 {
                    assert(p[k] == cs@.subrange(i as int, j as int)[k]);
                }
            }
        }
        j += 1;
    }
    Some(acc)
}

/// `<u16 as FromStr>::from_str`.
pub fn parse_u16(s: &str) -> (r: Option<u16>)
    ensures
        match parse_unsigned(s@, 0xffff) {
            Some(v) => r == Some(v as u16),
            None => r is None,
        },
{
    let cs = chars_of(s);
    assert(cs@.subrange(0, cs@.len() as int) =~= cs@);
    match parse_unsigned_range(&cs, 0, cs.len(), 0xffff) {
        Some(v) => Some(v as u16),
        None => None,
    }
}

/// `<u32 as FromStr>::from_str`.
pub fn parse_u32(s: &str) -> (r: Option<u32>)
    ensures
        match parse_unsigned(s@, 0xffff_ffff) {
            Some(v) => r == Some(v as u32),
            None => r is None,
        },
{
    let cs = chars_of(s);
    assert(cs@.subrange(0, cs@.len() as int) =~= cs@);
    match parse_unsigned_range(&cs, 0, cs.len(), 0xffff_ffff) {
        Some(v) => Some(v as u32),
        None => None,
    }
}

// ── Decimal rendering ───────────────────────────────────────────────────────

pub open spec fn digit_char(d: nat) -> char {
    ((d + 48) as u32) as char
}

/// The decimal digits of `n`, as `Display` writes an unsigned integer.
pub open spec fn decimal(n: nat) -> Seq<char>
    decreases n,
{
    if n < 10 {
        seq![digit_char(n)]
    } else {
        decimal(n / 10).push(digit_char(n % 10))
    }
}

/// `n` as `Display` writes a signed integer.
pub open spec fn signed_decimal(n: int) -> Seq<char> {
    if n < 0 {
        seq!['-'] + decimal((-n) as nat)
    } else {
        decimal(n as nat)
    }
}

fn digit_str(d: u64) -> (r: &'static str)
    requires
        d < 10,
    ensures
        r@ == seq![digit_char(d as nat)],
{
    proof {
        reveal_strlit("0");
        reveal_strlit("1");
        reveal_strlit("2");
        reveal_strlit("3");
        reveal_strlit("4");
        reveal_strlit("5");
        reveal_strlit("6");
        reveal_strlit("7");
        reveal_strlit("8");
        reveal_strlit("9");
    }
    let r = if d == 0 {
        "0"
    } else if d == 1 {
        "1"
    } else if d == 2 {
        "2"
    } else if d == 3 {
        "3"
    } else if d == 4 {
        "4"
    } else if d == 5 {
        "5"
    } else if d == 6 {
        "6"
    } else if d == 7 {
        "7"
    } else if d == 8 {
        "8"
    } else {
        "9"
    };
    assert(r@ =~= seq![digit_char(d as nat)]);
    r
}

/// `n` in decimal.
pub fn decimal_string(n: u64) -> (s: String)
    ensures
        s@ == decimal(n as nat),
    decreases n,
{
    if n < 10 {
        digit_str(n).to_owned()
    } else {
        let prefix = decimal_string(n / 10);
        let s = prefix.concat(digit_str(n % 10));
        assert(s@ =~= decimal(n as nat));
        s
    }
}

/// `n` in decimal, with a leading `-` when it is negative.
pub fn signed_decimal_string(n: i64) -> (s: String)
    requires
        n > i64::MIN,
    ensures
        s@ == signed_decimal(n as int),
{
    if n < 0 {
        proof {
            reveal_strlit("-");
        }
        let digits = decimal_string((-n) as u64);
        let s = "-".to_owned().concat(digits.as_str());
        assert(s@ =~= signed_decimal(n as int));
        s
    } else {
        decimal_string(n as u64)
    }
}

} // verus!

verus! {

/// Whether `a` and `b` are the same text.
pub fn same_text(a: &str, b: &str) -> (r: bool)
    ensures
        r == (a@ == b@),
{
    if a.unicode_len() != b.unicode_len() {
        return false;
    }
    let r = starts_with(a, b);
    proof {
        if r {
            assert(a@ =~= a@.subrange(0, b@.len() as int));
        } else if a@ == b@ {
            assert(a@.subrange(0, b@.len() as int) =~= b@);
        }
    }
    r
}

} // verus!

verus! {

/// Reading back the decimal digits of `n` gives `n`: they are ASCII digits,
/// there is at least one, and their value is `n`.
pub proof fn lemma_decimal_reads_back(n: nat)
    ensures
        decimal(n).len() > 0,
        all_digits(decimal(n)),
        digits_value(decimal(n)) == n,
    decreases n,
{
    let d = (n % 10) as nat;
    assert(digit_char(d) as u32 == d + 48);
    assert(digit_value(digit_char(d)) == d);
    assert(decimal(n).last() == digit_char(d));
    if n < 10 {
        assert(decimal(n).drop_last() =~= Seq::<char>::empty());
        assert(digits_value(decimal(n)) == digits_value(Seq::<char>::empty()) * 10 + d);
    }
    if n >= 10 {
        lemma_decimal_reads_back(n / 10);
        let s = decimal(n / 10);
        assert(decimal(n).drop_last() =~= s);
        assert(digits_value(decimal(n)) == digits_value(s) * 10 + d);
        assert((n / 10) * 10 + d == n);
        assert forall|i: int| 0 <= i < decimal(n).len() implies is_ascii_digit(
            #[trigger] decimal(n)[i],
        ) by {
            if i < s.len() {
                assert(decimal(n)[i] == s[i]);
            }
        }
    }
}

/// The first `c` at or after `start` is at `k` when `s[k]` is `c` and no
/// character between them is.
pub proof fn lemma_find_from_at(s: Seq<char>, start: nat, c: char, k: int)
    requires
        start <= k < s.len(),
        s[k] == c,
        forall|m: int| start <= m < k ==> s[m] != c,
    ensures
        find_from(s, start, c) == k,
    decreases k - start,
{
    if start < k {
        lemma_find_from_at(s, start + 1, c, k);
    }
}

/// The last `c` in `s` is at `k` when `s[k]` is `c` and no later character
/// is.
pub proof fn lemma_rfind_at(s: Seq<char>, c: char, k: int)
    requires
        0 <= k < s.len(),
        s[k] == c,
        forall|m: int| k < m < s.len() ==> s[m] != c,
    ensures
        rfind(s, c) == k,
    decreases s.len(),
{
    if k < s.len() - 1 {
        let d = s.drop_last();
        assert forall|m: int| k < m < d.len() implies d[m] != c by {
            assert(d[m] == s[m]);
        }
        lemma_rfind_at(d, c, k);
    }
}

} // verus!

verus! {

/// Every decimal digit sequence reads back, through `parse_unsigned`, as the
/// number it was written from, for every number the type holds.
pub proof fn lemma_parse_decimal(n: nat, max: nat)
    requires
        n <= max,
    ensures
        parse_unsigned(decimal(n), max) == Some(n),
{
    lemma_decimal_reads_back(n);
    assert(is_ascii_digit(decimal(n)[0]));
}

/// Decimal digits are not white space, nor any of `c` when `c` is not a
/// digit.
pub proof fn lemma_decimal_has_no(n: nat, c: char)
    requires
        !is_ascii_digit(c),
    ensures
        forall|i: int| 0 <= i < decimal(n).len() ==> #[trigger] decimal(n)[i] != c,
        forall|i: int| 0 <= i < decimal(n).len() ==> !is_white_space(#[trigger] decimal(n)[i]),
{
    lemma_decimal_reads_back(n);
    assert forall|i: int| 0 <= i < decimal(n).len() implies #[trigger] decimal(n)[i] != c
        && !is_white_space(decimal(n)[i]) by {
        assert(is_ascii_digit(decimal(n)[i]));
    }
}

/// With no `c` at or after `start`, `find_from` gives the length.
pub proof fn lemma_find_from_none(s: Seq<char>, start: nat, c: char)
    requires
        start <= s.len(),
        forall|m: int| start <= m < s.len() ==> s[m] != c,
    ensures
        find_from(s, start, c) == s.len(),
{
    lemma_find_from(s, start, c);
}

/// With no `c` in `s`, `rfind` gives -1.
pub proof fn lemma_rfind_none(s: Seq<char>, c: char)
    requires
        forall|m: int| 0 <= m < s.len() ==> s[m] != c,
    ensures
        rfind(s, c) == -1,
{
    lemma_rfind(s, c);
}

} // verus!
