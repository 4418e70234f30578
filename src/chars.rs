//! Character-level helpers shared by the parser, the segmenter and the
//! dictionary: Unicode whitespace, trimming, and moving between `str` and
//! character vectors.
use vstd::prelude::*;

verus! {

/// The Unicode `White_Space` property.
pub open spec fn is_white_space(c: char) -> bool {
    ||| ('\u{9}' <= c && c <= '\u{d}')
    ||| c == ' '
    ||| c == '\u{85}'
    ||| c == '\u{a0}'
    ||| c == '\u{1680}'
    ||| ('\u{2000}' <= c && c <= '\u{200a}')
    ||| c == '\u{2028}'
    ||| c == '\u{2029}'
    ||| c == '\u{202f}'
    ||| c == '\u{205f}'
    ||| c == '\u{3000}'
}

/// `s` without its leading whitespace.
pub open spec fn trim_start(s: Seq<char>) -> Seq<char>
    decreases s.len(),
{
    if s.len() > 0 && is_white_space(s[0]) {
        trim_start(s.subrange(1, s.len() as int))
    } else {
        s
    }
}

/// `s` without its trailing whitespace.
pub open spec fn trim_end(s: Seq<char>) -> Seq<char>
    decreases s.len(),
{
    if s.len() > 0 && is_white_space(s[s.len() - 1]) {
        trim_end(s.subrange(0, s.len() - 1))
    } else {
        s
    }
}

/// `s` without whitespace at either end.
pub open spec fn trim(s: Seq<char>) -> Seq<char> {
    trim_end(trim_start(s))
}

/// Every character of `s` is whitespace.
pub open spec fn is_blank(s: Seq<char>) -> bool {
    forall|i: int| 0 <= i < s.len() ==> is_white_space(#[trigger] s[i])
}

/// Relies on `char::is_whitespace`, which tests the Unicode `White_Space`
/// property.
#[verifier::external_body]
pub fn is_whitespace(c: char) -> (r: bool)
    ensures
        r == is_white_space(c),
{
    c.is_whitespace()
}

/// Relies on `str::chars` collected into a vector: the characters in order.
#[verifier::external_body]
pub fn chars_of(s: &str) -> (r: Vec<char>)
    ensures
        r@ == s@,
{
    s.chars().collect()
}

/// Relies on collecting characters into a `String`: the same characters.
#[verifier::external_body]
pub fn string_of(v: &[char]) -> (r: String)
    ensures
        r@ == v@,
{
    v.iter().collect()
}

/// Relies on `String::push`: one character appended.
#[verifier::external_body]
pub fn push_char(s: &mut String, c: char)
    ensures
        final(s)@ == old(s)@.push(c),
{
    s.push(c)
}

pub proof fn lemma_trim_start_skip(s: Seq<char>, i: int)
    requires
        0 <= i <= s.len(),
        forall|k: int| 0 <= k < i ==> is_white_space(#[trigger] s[k]),
    ensures
        trim_start(s) == trim_start(s.subrange(i, s.len() as int)),
    decreases i,
{
    if i > 0 {
        assert(s.subrange(1, s.len() as int).subrange(i - 1, s.len() - 1) =~= s.subrange(i, s.len() as int));
        lemma_trim_start_skip(s.subrange(1, s.len() as int), i - 1);
    } else {
        assert(s.subrange(0, s.len() as int) =~= s);
    }
}

pub proof fn lemma_trim_end_skip(s: Seq<char>, j: int)
    requires
        0 <= j <= s.len(),
        forall|k: int| j <= k < s.len() ==> is_white_space(#[trigger] s[k]),
    ensures
        trim_end(s) == trim_end(s.subrange(0, j)),
    decreases s.len() - j,
{
    if j < s.len() {
        assert(s.subrange(0, s.len() - 1).subrange(0, j) =~= s.subrange(0, j));
        lemma_trim_end_skip(s.subrange(0, s.len() - 1), j);
    } else {
        assert(s.subrange(0, j) =~= s);
    }
}

/// The bounds of the trimmed part of `s[from..to]`: `trim(s[from..to])` is
/// `s[a..b]`.
pub fn trim_bounds(s: &Vec<char>, from: usize, to: usize) -> (r: (usize, usize))
    requires
        from <= to <= s@.len(),
    ensures
        from <= r.0 <= r.1 <= to,
        s@.subrange(r.0 as int, r.1 as int) == trim(s@.subrange(from as int, to as int)),
        is_blank(s@.subrange(from as int, to as int)) <==> r.0 == r.1,
{
    let ghost sub = s@.subrange(from as int, to as int);
    let mut a = from;
    while a < to && is_whitespace(s[a])
        invariant
            from <= a <= to <= s@.len(),
            sub == s@.subrange(from as int, to as int),
            forall|k: int| from <= k < a ==> is_white_space(#[trigger] s@[k]),
        decreases to - a,
    {
        a = a + 1;
    }
    proof {
        assert forall|k: int| 0 <= k < a - from implies is_white_space(#[trigger] sub[k]) by {
            assert(sub[k] == s@[from + k]);
        }
        lemma_trim_start_skip(sub, a - from);
        assert(sub.subrange(a - from, sub.len() as int) =~= s@.subrange(a as int, to as int));
    }
    let mut b = to;
    while b > a && is_whitespace(s[b - 1])
        invariant
            from <= a <= b <= to <= s@.len(),
            forall|k: int| b <= k < to ==> is_white_space(#[trigger] s@[k]),
        decreases b - a,
    {
        b = b - 1;
    }
    proof {
        let t = s@.subrange(a as int, to as int);
        assert forall|k: int| b - a <= k < t.len() implies is_white_space(#[trigger] t[k]) by {
            assert(t[k] == s@[a + k]);
        }
        lemma_trim_end_skip(t, b - a);
        assert(t.subrange(0, b - a) =~= s@.subrange(a as int, b as int));
        if a < b {
            assert(!is_white_space(sub[a - from]));
        } else if a < to {
            assert(!is_white_space(sub[a - from]));
        } else {
            assert forall|k: int| 0 <= k < sub.len() implies is_white_space(#[trigger] sub[k]) by {
                assert(sub[k] == s@[from + k]);
            }
        }
    }
    (a, b)
}

/// Whether `b[x..y]` is exactly `lit`.
pub fn range_eq_lit(b: &Vec<char>, x: usize, y: usize, lit: &str) -> (r: bool)
    requires
        x <= y <= b@.len(),
    ensures
        r == (b@.subrange(x as int, y as int) == lit@),
{
    let n = lit.unicode_len();
    if n != y - x {
        return false;
    }
    let mut k: usize = 0;
    while k < n
        invariant
            n == lit@.len(),
            n == y - x,
            x <= y <= b@.len(),
            k <= n,
            forall|j: int| 0 <= j < k ==> b@[x + j] == lit@[j],
        decreases n - k,
    {
        if lit.get_char(k) != b[x + k] {
            assert(b@.subrange(x as int, y as int)[k as int] != lit@[k as int]);
            return false;
        }
        k = k + 1;
    }
    assert(b@.subrange(x as int, y as int) =~= lit@);
    true
}

/// Whether `b[x..y]` begins with `lit`.
pub fn range_starts_with_lit(b: &Vec<char>, x: usize, y: usize, lit: &str) -> (r: bool)
    requires
        x <= y <= b@.len(),
    ensures
        r == (lit@.len() <= y - x && b@.subrange(x as int, x + lit@.len()) == lit@),
{
    let n = lit.unicode_len();
    if n > y - x {
        return false;
    }
    range_eq_lit(b, x, x + n, lit)
}

/// A copy of `b[x..y]`.
pub fn sub_vec(b: &Vec<char>, x: usize, y: usize) -> (r: Vec<char>)
    requires
        x <= y <= b@.len(),
    ensures
        r@ == b@.subrange(x as int, y as int),
{
    let mut r: Vec<char> = Vec::new();
    let mut k: usize = x;
    while k < y
        invariant
            x <= k <= y <= b@.len(),
            r@ == b@.subrange(x as int, k as int),
        decreases y - k,
    {
        r.push(b[k]);
        assert(r@ =~= b@.subrange(x as int, k + 1));
        k = k + 1;
    }
    r
}

/// `b[x..y]` as a `String`.
pub fn string_of_range(b: &Vec<char>, x: usize, y: usize) -> (r: String)
    requires
        x <= y <= b@.len(),
    ensures
        r@ == b@.subrange(x as int, y as int),
{
    let v = sub_vec(b, x, y);
    string_of(v.as_slice())
}

/// `a` comes before `b` in the order of their characters' code points
/// (the order of their UTF-8 bytes).
pub open spec fn text_before(a: Seq<char>, b: Seq<char>) -> bool
    decreases a.len(),
{
    if b.len() == 0 {
        false
    } else if a.len() == 0 {
        true
    } else if a[0] != b[0] {
        (a[0] as u32) < (b[0] as u32)
    } else {
        text_before(a.subrange(1, a.len() as int), b.subrange(1, b.len() as int))
    }
}

/// Whether `a` comes before `b` in the order of their characters.
pub fn text_lt(a: &str, b: &str) -> (r: bool)
    ensures
        r == text_before(a@, b@),
{
    let x = chars_of(a);
    let y = chars_of(b);
    let mut i: usize = 0;
    assert(x@.subrange(0, x@.len() as int) =~= x@);
    assert(y@.subrange(0, y@.len() as int) =~= y@);
    while i < x.len() && i < y.len() && x[i] == y[i]
        invariant
            i <= x@.len(),
            i <= y@.len(),
            x@ == a@,
            y@ == b@,
            text_before(a@, b@) == text_before(
                x@.subrange(i as int, x@.len() as int),
                y@.subrange(i as int, y@.len() as int),
            ),
        decreases x@.len() - i,
    {
        let ghost xs = x@.subrange(i as int, x@.len() as int);
        let ghost ys = y@.subrange(i as int, y@.len() as int);
        assert(xs.subrange(1, xs.len() as int) =~= x@.subrange(i + 1, x@.len() as int));
        assert(ys.subrange(1, ys.len() as int) =~= y@.subrange(i + 1, y@.len() as int));
        i = i + 1;
    }
    if i == y.len() {
        false
    } else if i == x.len() {
        true
    } else {
        (x[i] as u32) < (y[i] as u32)
    }
}

/// Code-point order on texts is a strict order.
pub proof fn lemma_text_before_order(a: Seq<char>, b: Seq<char>, c: Seq<char>)
    ensures
        text_before(a, b) ==> !text_before(b, a),
        text_before(a, b) && text_before(b, c) ==> text_before(a, c),
    decreases a.len(),
{
    if a.len() > 0 && b.len() > 0 && c.len() > 0 {
        lemma_text_before_order(
            a.subrange(1, a.len() as int),
            b.subrange(1, b.len() as int),
            c.subrange(1, c.len() as int),
        );
    } else if a.len() > 0 && b.len() > 0 {
        lemma_text_before_order(
            a.subrange(1, a.len() as int),
            b.subrange(1, b.len() as int),
            Seq::empty(),
        );
    }
}

} // verus!
