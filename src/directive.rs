//! Reads the body of a bracketed directive (`[pause:long]`, `[break 2s]`)
//! into a timed pause.
use vstd::prelude::*;
use crate::chars::{range_eq_lit, range_starts_with_lit, string_of_range, trim, trim_bounds};
use crate::segment::{Pause, PauseKind, Segment, SsmlError};

verus! {

pub open spec fn is_digit(c: char) -> bool {
    '0' <= c && c <= '9'
}

pub open spec fn digit_value(c: char) -> nat {
    (c as nat - '0' as nat) as nat
}

pub open spec fn all_digits(s: Seq<char>) -> bool {
    forall|i: int| 0 <= i < s.len() ==> is_digit(#[trigger] s[i])
}

/// The number that the decimal digits `s` spell.
pub open spec fn digits_value(s: Seq<char>) -> nat
    decreases s.len(),
{
    if s.len() == 0 {
        0
    } else {
        digits_value(s.subrange(0, s.len() - 1)) * 10 + digit_value(s[s.len() - 1])
    }
}

/// `s` without one leading `+`.
pub open spec fn unsigned_part(s: Seq<char>) -> Seq<char> {
    if s.len() > 0 && s[0] == '+' {
        s.subrange(1, s.len() as int)
    } else {
        s
    }
}

/// A non-negative integer that fits in `u32`: an optional `+`, then at
/// least one decimal digit.
pub open spec fn integer_value(s: Seq<char>) -> Option<u32> {
    let t = unsigned_part(s);
    if t.len() > 0 && all_digits(t) && digits_value(t) <= u32::MAX {
        Some(digits_value(t) as u32)
    } else {
        None
    }
}

/// How many decimal digits `s` begins with.
pub open spec fn leading_digits(s: Seq<char>) -> nat
    decreases s.len(),
{
    if s.len() > 0 && is_digit(s[0]) {
        1 + leading_digits(s.subrange(1, s.len() as int))
    } else {
        0
    }
}

/// The `k`-th digit after the decimal point, zero past the end.
pub open spec fn fraction_digit(f: Seq<char>, k: int) -> nat {
    if 0 <= k < f.len() {
        digit_value(f[k])
    } else {
        0
    }
}

/// A decimal fraction `0.f` times 1000, rounded half up.
pub open spec fn fraction_ms(f: Seq<char>) -> nat {
    fraction_digit(f, 0) * 100 + fraction_digit(f, 1) * 10 + fraction_digit(f, 2) + if fraction_digit(
        f,
        3,
    ) >= 5 {
        1nat
    } else {
        0nat
    }
}

/// A count of seconds (an optional `+`, digits, optionally a point and
/// more digits, at least one digit in all) as milliseconds, rounded half
/// up and capped at `u32::MAX`.
pub open spec fn seconds_value(s: Seq<char>) -> Option<u32> {
    let t = unsigned_part(s);
    let p = leading_digits(t) as int;
    let w = t.subrange(0, p);
    let rest = t.subrange(p, t.len() as int);
    let f = if rest.len() > 0 { rest.subrange(1, rest.len() as int) } else { rest };
    if (rest.len() == 0 || (rest[0] == '.' && all_digits(f))) && w.len() + f.len() > 0 {
        let ms = digits_value(w) * 1000 + fraction_ms(f);
        if ms > u32::MAX {
            Some(u32::MAX)
        } else {
            Some(ms as u32)
        }
    } else {
        None
    }
}

pub open spec fn explicit(ms: u32) -> Pause {
    Pause { duration_ms: ms, kind: PauseKind::Explicit }
}

/// The descriptor that follows a pause keyword: trimmed, then without one
/// leading `:`, trimmed again.
pub open spec fn descriptor(rest: Seq<char>) -> Seq<char> {
    let d = trim(rest);
    if d.len() > 0 && d[0] == ':' {
        trim(d.subrange(1, d.len() as int))
    } else {
        d
    }
}

/// The pause that a descriptor names, or the descriptor as the error.
pub open spec fn pause_value(rest: Seq<char>) -> Result<Pause, Seq<char>> {
    let d = descriptor(rest);
    let n = d.len();
    if n == 0 {
        Ok(explicit(420))
    } else if d == "short"@ || d == "corta"@ {
        Ok(explicit(220))
    } else if d == "medium"@ || d == "media"@ {
        Ok(explicit(420))
    } else if d == "long"@ || d == "larga"@ {
        Ok(explicit(680))
    } else if n >= 2 && d[n - 2] == 'm' && d[n - 1] == 's' {
        match integer_value(trim(d.subrange(0, n - 2))) {
            Some(ms) => Ok(explicit(ms)),
            None => Err(d),
        }
    } else if d[n - 1] == 's' {
        match seconds_value(trim(d.subrange(0, n - 1))) {
            Some(ms) => Ok(explicit(ms)),
            None => Err(d),
        }
    } else {
        Err(d)
    }
}

/// What a directive body means: `Ok(None)` when it is no pause directive,
/// `Ok(Some(p))` for a pause, `Err(d)` for a pause directive whose
/// descriptor `d` is malformed.
pub open spec fn directive_value(body: Seq<char>) -> Result<Option<Pause>, Seq<char>> {
    let t = trim(body);
    if t.len() > 0 && t.len() >= "pause"@.len() && t.subrange(0, "pause"@.len() as int)
        == "pause"@ {
        match pause_value(t.subrange("pause"@.len() as int, t.len() as int)) {
            Ok(p) => Ok(Some(p)),
            Err(d) => Err(d),
        }
    } else if t.len() > 0 && t.len() >= "break"@.len() && t.subrange(0, "break"@.len() as int)
        == "break"@ {
        match pause_value(t.subrange("break"@.len() as int, t.len() as int)) {
            Ok(p) => Ok(Some(p)),
            Err(d) => Err(d),
        }
    } else {
        Ok(None)
    }
}

/// The value of the digits `b[x..y]`, or `None` where it passes `u32::MAX`.
fn digits_in(b: &Vec<char>, x: usize, y: usize) -> (r: Option<u32>)
    requires
        x <= y <= b@.len(),
        all_digits(b@.subrange(x as int, y as int)),
    ensures
        r == (if digits_value(b@.subrange(x as int, y as int)) <= u32::MAX {
            Some(digits_value(b@.subrange(x as int, y as int)) as u32)
        } else {
            None::<u32>
        }),
{
    let mut acc: u64 = 0;
    let mut k: usize = x;
    while k < y
        invariant
            x <= k <= y <= b@.len(),
            all_digits(b@.subrange(x as int, y as int)),
            acc <= u32::MAX,
            acc == digits_value(b@.subrange(x as int, k as int)),
        decreases y - k,
    {
        assert(is_digit(b@.subrange(x as int, y as int)[k - x]));
        let d = (b[k] as u32 - '0' as u32) as u64;
        assert(b@.subrange(x as int, k + 1).subrange(0, k - x) =~= b@.subrange(x as int, k as int));
        acc = acc * 10 + d;
        if acc > 4294967295 {
            proof {
                lemma_digits_grow(b@, x as int, k + 1, y as int);
            }
            return None;
        }
        k = k + 1;
    }
    Some(acc as u32)
}

proof fn lemma_digits_grow(b: Seq<char>, x: int, k: int, y: int)
    requires
        0 <= x <= k <= y <= b.len(),
        all_digits(b.subrange(x, y)),
    ensures
        digits_value(b.subrange(x, y)) >= digits_value(b.subrange(x, k)),
    decreases y - k,
{
    if k < y {
        lemma_digits_grow(b, x, k + 1, y);
        assert(b.subrange(x, k + 1).subrange(0, k - x) =~= b.subrange(x, k));
    }
}

/// The index past the digits that begin `b[x..y]`.
fn skip_digits(b: &Vec<char>, x: usize, y: usize) -> (r: usize)
    requires
        x <= y <= b@.len(),
    ensures
        x <= r <= y,
        r - x == leading_digits(b@.subrange(x as int, y as int)),
        all_digits(b@.subrange(x as int, r as int)),
    decreases y - x,
{
    if x < y && '0' <= b[x] && b[x] <= '9' {
        let r = skip_digits(b, x + 1, y);
        assert(b@.subrange(x as int, y as int).subrange(1, y - x) =~= b@.subrange(x + 1, y as int));
        assert forall|i: int| 0 <= i < r - x implies is_digit(#[trigger] b@.subrange(x as int, r as int)[i]) by {
            if i > 0 {
                assert(b@.subrange(x as int, r as int)[i] == b@.subrange(x + 1, r as int)[i - 1]);
            }
        }
        r
    } else {
        x
    }
}

/// `integer_value(b[x..y])`.
fn integer_in(b: &Vec<char>, x: usize, y: usize) -> (r: Option<u32>)
    requires
        x <= y <= b@.len(),
    ensures
        r == integer_value(b@.subrange(x as int, y as int)),
{
    let ghost s = b@.subrange(x as int, y as int);
    let start = if x < y && b[x] == '+' { x + 1 } else { x };
    assert(unsigned_part(s) =~= b@.subrange(start as int, y as int));
    let end = skip_digits(b, start, y);
    if start == y || end != y {
        if end != y {
            assert(!is_digit(b@.subrange(start as int, y as int)[end - start])) by {
                lemma_leading_digits_stop(b@.subrange(start as int, y as int));
            }
        }
        return None;
    }
    digits_in(b, start, y)
}

proof fn lemma_leading_digits_stop(s: Seq<char>)
    ensures
        leading_digits(s) <= s.len(),
        leading_digits(s) < s.len() ==> !is_digit(s[leading_digits(s) as int]),
    decreases s.len(),
{
    if s.len() > 0 && is_digit(s[0]) {
        lemma_leading_digits_stop(s.subrange(1, s.len() as int));
    }
}

/// `seconds_value(b[x..y])`.
fn seconds_in(b: &Vec<char>, x: usize, y: usize) -> (r: Option<u32>)
    requires
        x <= y <= b@.len(),
    ensures
        r == seconds_value(b@.subrange(x as int, y as int)),
{
    let ghost s = b@.subrange(x as int, y as int);
    let start = if x < y && b[x] == '+' { x + 1 } else { x };
    let ghost t = b@.subrange(start as int, y as int);
    assert(unsigned_part(s) =~= t);
    let p = skip_digits(b, start, y);
    proof {
        lemma_leading_digits_stop(t);
        assert(t.subrange(0, p - start) =~= b@.subrange(start as int, p as int));
        assert(t.subrange(p - start, t.len() as int) =~= b@.subrange(p as int, y as int));
    }
    let fstart = if p < y { p + 1 } else { p };
    assert(p < y ==> b@.subrange(p as int, y as int).subrange(1, y - p) =~= b@.subrange(fstart as int, y as int));
    assert(p == y ==> b@.subrange(p as int, y as int) =~= b@.subrange(fstart as int, y as int));
    if p < y && b[p] != '.' {
        return None;
    }
    let fend = skip_digits(b, fstart, y);
    if fend != y {
        assert(!is_digit(b@.subrange(fstart as int, y as int)[fend - fstart])) by {
            lemma_leading_digits_stop(b@.subrange(fstart as int, y as int));
        }
        return None;
    }
    if p == start && fstart == y {
        return None;
    }
    let ghost f = b@.subrange(fstart as int, y as int);
    // the whole part, capped well above what fits in u32 milliseconds
    let mut whole: u64 = 0;
    let mut big = false;
    let mut k: usize = start;
    while k < p
        invariant
            start <= k <= p <= y <= b@.len(),
            all_digits(b@.subrange(start as int, p as int)),
            !big ==> whole <= 10_000_000 && whole == digits_value(b@.subrange(start as int, k as int)),
            big ==> digits_value(b@.subrange(start as int, k as int)) > 10_000_000,
        decreases p - k,
    {
        assert(is_digit(b@.subrange(start as int, p as int)[k - start]));
        assert(b@.subrange(start as int, k + 1).subrange(0, k - start) =~= b@.subrange(start as int, k as int));
        if !big {
            whole = whole * 10 + (b[k] as u32 - '0' as u32) as u64;
            if whole > 10_000_000 {
                big = true;
            }
        }
        k = k + 1;
    }
    let mut frac: u64 = 0;
    let mut j: usize = 0;
    while j < 3
        invariant
            j <= 3,
            fstart <= y <= b@.len(),
            f == b@.subrange(fstart as int, y as int),
            all_digits(f),
            frac == (if j >= 1 { fraction_digit(f, 0) * 100 } else { 0 }) + (if j >= 2 {
                fraction_digit(f, 1) * 10
            } else {
                0
            }) + (if j >= 3 { fraction_digit(f, 2) } else { 0 }),
        decreases 3 - j,
    {
        let d: u64 = if j < y - fstart {
            assert(is_digit(f[j as int]));
            (b[fstart + j] as u32 - '0' as u32) as u64
        } else {
            0
        };
        if j == 0 {
            frac = frac + d * 100;
        } else if j == 1 {
            frac = frac + d * 10;
        } else {
            frac = frac + d;
        }
        j = j + 1;
    }
    if 3 < y - fstart {
        assert(is_digit(f[3]));
        if b[fstart + 3] >= '5' {
            frac = frac + 1;
        }
    }
    if big {
        return Some(4294967295);
    }
    let ms = whole * 1000 + frac;
    if ms > 4294967295 {
        Some(4294967295)
    } else {
        Some(ms as u32)
    }
}

/// Reads the descriptor that follows a pause keyword, `b[from..to]`.
pub fn parse_pause(b: &Vec<char>, from: usize, to: usize) -> (r: Result<Pause, SsmlError>)
    requires
        from <= to <= b@.len(),
    ensures
        match (r, pause_value(b@.subrange(from as int, to as int))) {
            (Ok(p), Ok(q)) => p == q,
            (Err(SsmlError::InvalidPause(e)), Err(d)) => e@ == d,
            _ => false,
        },
{
    let ghost rest = b@.subrange(from as int, to as int);
    let (x0, y0) = trim_bounds(b, from, to);
    let (x, y) = if x0 < y0 && b[x0] == ':' {
        assert(b@.subrange(x0 as int, y0 as int).subrange(1, y0 - x0) =~= b@.subrange(x0 + 1, y0 as int));
        trim_bounds(b, x0 + 1, y0)
    } else {
        (x0, y0)
    };
    let ghost d = b@.subrange(x as int, y as int);
    assert(d == descriptor(rest));
    if x == y {
        return Ok(Pause::explicit(420));
    }
    if range_eq_lit(b, x, y, "short") || range_eq_lit(b, x, y, "corta") {
        return Ok(Pause::explicit(220));
    }
    if range_eq_lit(b, x, y, "medium") || range_eq_lit(b, x, y, "media") {
        return Ok(Pause::explicit(420));
    }
    if range_eq_lit(b, x, y, "long") || range_eq_lit(b, x, y, "larga") {
        return Ok(Pause::explicit(680));
    }
    assert(d[d.len() - 1] == b@[y - 1]);
    if y - x >= 2 && b[y - 2] == 'm' && b[y - 1] == 's' {
        assert(d[d.len() - 2] == b@[y - 2]);
        let (p, q) = trim_bounds(b, x, y - 2);
        assert(d.subrange(0, d.len() - 2) =~= b@.subrange(x as int, y - 2));
        return match integer_in(b, p, q) {
            Some(ms) => Ok(Pause::explicit(ms)),
            None => Err(SsmlError::InvalidPause(string_of_range(b, x, y))),
        };
    }
    if b[y - 1] == 's' {
        let (p, q) = trim_bounds(b, x, y - 1);
        assert(d.subrange(0, d.len() - 1) =~= b@.subrange(x as int, y - 1));
        return match seconds_in(b, p, q) {
            Some(ms) => Ok(Pause::explicit(ms)),
            None => Err(SsmlError::InvalidPause(string_of_range(b, x, y))),
        };
    }
    Err(SsmlError::InvalidPause(string_of_range(b, x, y)))
}

/// Interprets a directive body: a pause for `pause` and `break`, `None` for
/// anything else, an error for a malformed pause descriptor.
pub fn parse_directive(body: &Vec<char>) -> (r: Result<Option<Segment>, SsmlError>)
    ensures
        match (r, directive_value(body@)) {
            (Ok(None), Ok(None)) => true,
            (Ok(Some(Segment::Break(p))), Ok(Some(q))) => p == q,
            (Err(SsmlError::InvalidPause(e)), Err(d)) => e@ == d,
            _ => false,
        },
{
    let (x, y) = trim_bounds(body, 0, body.len());
    assert(body@.subrange(0, body@.len() as int) =~= body@);
    if x == y {
        return Ok(None);
    }
    if range_starts_with_lit(body, x, y, "pause") {
        let n = "pause".unicode_len();
        assert(body@.subrange(x as int, y as int).subrange(n as int, y - x) =~= body@.subrange(x + n, y as int));
        assert(body@.subrange(x as int, y as int).subrange(0, n as int) =~= body@.subrange(x as int, x + n));
        return match parse_pause(body, x + n, y) {
            Ok(p) => Ok(Some(Segment::Break(p))),
            Err(e) => Err(e),
        };
    }
    proof {
        if "pause"@.len() <= y - x {
            assert(body@.subrange(x as int, y as int).subrange(0, "pause"@.len() as int) =~= body@.subrange(x as int, x + "pause"@.len()));
        }
    }
    if range_starts_with_lit(body, x, y, "break") {
        let n = "break".unicode_len();
        assert(body@.subrange(x as int, y as int).subrange(n as int, y - x) =~= body@.subrange(x + n, y as int));
        assert(body@.subrange(x as int, y as int).subrange(0, n as int) =~= body@.subrange(x as int, x + n));
        return match parse_pause(body, x + n, y) {
            Ok(p) => Ok(Some(Segment::Break(p))),
            Err(e) => Err(e),
        };
    }
    proof {
        if "break"@.len() <= y - x {
            assert(body@.subrange(x as int, y as int).subrange(0, "break"@.len() as int) =~= body@.subrange(x as int, x + "break"@.len()));
        }
    }
    Ok(None)
}

} // verus!
