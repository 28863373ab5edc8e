//! Character-level text handling for the plain comma-separated tables the
//! game data ships in: lines, comma-separated fields, whitespace trimming
//! and unsigned decimal numbers, each as `str` (`lines`, `split(',')`,
//! `trim`, `parse`) defines it, over ranges of a character buffer.
use vstd::prelude::*;

verus! {

/// The characters of `text`, in order.
pub fn to_chars(text: &str) -> (r: Vec<char>)
    ensures
        r@ == text@,
{
    let mut out: Vec<char> = Vec::new();
    for c in it: text.chars()
        invariant
            out@ == it.seq().take(it.index() as int),
            it.seq() == text@,
    {
        out.push(c);
    }
    out
}

/// First position at or after `i` holding `c`, or the length.
pub open spec fn next_index_of(s: Seq<char>, c: char, i: int) -> int
    decreases s.len() - i,
{
    if i < 0 || i >= s.len() {
        s.len() as int
    } else if s[i] == c {
        i
    } else {
        next_index_of(s, c, i + 1)
    }
}

pub proof fn lemma_next_index_of(s: Seq<char>, c: char, i: int)
    requires
        0 <= i <= s.len(),
    ensures
        i <= next_index_of(s, c, i) <= s.len(),
        next_index_of(s, c, i) < s.len() ==> s[next_index_of(s, c, i)] == c,
        forall|j: int| i <= j < next_index_of(s, c, i) ==> s[j] != c,
    decreases s.len() - i,
{
    if i < s.len() && s[i] != c {
        lemma_next_index_of(s, c, i + 1);
    }
}

/// The line starting at `i`: up to the next line feed, without a carriage
/// return right before it.
pub open spec fn line_at(t: Seq<char>, i: int) -> Seq<char> {
    let e = next_index_of(t, '\n', i);
    let raw = t.subrange(i, e);
    if e < t.len() && raw.len() > 0 && raw.last() == '\r' {
        raw.drop_last()
    } else {
        raw
    }
}

/// The lines from position `i` on; a final line feed ends the last line
/// rather than starting an empty one.
pub open spec fn lines_from(t: Seq<char>, i: int) -> Seq<Seq<char>>
    decreases t.len() + 1 - i,
{
    if i < 0 || i >= t.len() {
        Seq::empty()
    } else {
        proof {
            lemma_next_index_of(t, '\n', i);
        }
        seq![line_at(t, i)] + lines_from(t, next_index_of(t, '\n', i) + 1)
    }
}

/// The comma-separated fields of `s` from position `i` on (at least one,
/// possibly empty).
pub open spec fn fields_from(s: Seq<char>, i: int) -> Seq<Seq<char>>
    decreases s.len() - i,
{
    if i < 0 || i > s.len() {
        Seq::empty()
    } else {
        proof {
            lemma_next_index_of(s, ',', i);
        }
        let e = next_index_of(s, ',', i);
        if e >= s.len() {
            seq![s.subrange(i, s.len() as int)]
        } else {
            seq![s.subrange(i, e)] + fields_from(s, e + 1)
        }
    }
}

/// Unicode white space, as `char::is_whitespace` defines it.
pub open spec fn is_ws(c: char) -> bool {
    ||| '\t' <= c <= '\r'
    ||| c == ' '
    ||| c == '\u{85}'
    ||| c == '\u{a0}'
    ||| c == '\u{1680}'
    ||| '\u{2000}' <= c <= '\u{200a}'
    ||| c == '\u{2028}'
    ||| c == '\u{2029}'
    ||| c == '\u{202f}'
    ||| c == '\u{205f}'
    ||| c == '\u{3000}'
}

pub fn char_is_ws(c: char) -> (r: bool)
    ensures
        r == is_ws(c),
{
    ('\t' <= c && c <= '\r') || c == ' ' || c == '\u{85}' || c == '\u{a0}' || c == '\u{1680}' || (
    '\u{2000}' <= c && c <= '\u{200a}') || c == '\u{2028}' || c == '\u{2029}' || c == '\u{202f}'
        || c == '\u{205f}' || c == '\u{3000}'
}

/// First position at or after `i` below `j` that is not white space, or `j`.
pub open spec fn skip_ws(s: Seq<char>, i: int, j: int) -> int
    decreases j - i,
{
    if i < j && is_ws(s[i]) {
        skip_ws(s, i + 1, j)
    } else {
        i
    }
}

/// One past the last position below `j` and at or after `i` that is not
/// white space, or `i`.
pub open spec fn skip_ws_back(s: Seq<char>, i: int, j: int) -> int
    decreases j - i,
{
    if i < j && is_ws(s[j - 1]) {
        skip_ws_back(s, i, j - 1)
    } else {
        j
    }
}

/// `s` without leading and trailing white space.
pub open spec fn trim(s: Seq<char>) -> Seq<char> {
    let a = skip_ws(s, 0, s.len() as int);
    s.subrange(a, skip_ws_back(s, a, s.len() as int))
}

pub proof fn lemma_skip_ws(s: Seq<char>, i: int, j: int)
    requires
        0 <= i <= j <= s.len(),
    ensures
        i <= skip_ws(s, i, j) <= j,
        i <= skip_ws_back(s, i, j) <= j,
    decreases j - i,
{
    if i < j && is_ws(s[i]) {
        lemma_skip_ws(s, i + 1, j);
    }
    if i < j && is_ws(s[j - 1]) {
        lemma_skip_ws(s, i, j - 1);
    }
}

/// Skipping white space in a range is skipping it in the substring.
proof fn lemma_skip_ws_shift(s: Seq<char>, a: int, b: int, i: int, j: int)
    requires
        0 <= a <= b <= s.len(),
        a <= i <= j <= b,
    ensures
        skip_ws(s, i, j) - a == skip_ws(s.subrange(a, b), i - a, j - a),
        skip_ws_back(s, i, j) - a == skip_ws_back(s.subrange(a, b), i - a, j - a),
    decreases j - i,
{
    if i < j {
        lemma_skip_ws_shift(s, a, b, i + 1, j);
        lemma_skip_ws_shift(s, a, b, i, j - 1);
    }
}

/// The trimmed part `[r.0, r.1)` of the range `[a, b)` of `v`.
pub fn trim_range(v: &Vec<char>, a: usize, b: usize) -> (r: (usize, usize))
    requires
        a <= b <= v@.len(),
    ensures
        a <= r.0 <= r.1 <= b,
        v@.subrange(r.0 as int, r.1 as int) == trim(v@.subrange(a as int, b as int)),
{
    let mut i = a;
    while i < b && char_is_ws(v[i])
        invariant
            a <= i <= b <= v@.len(),
            skip_ws(v@, a as int, b as int) == skip_ws(v@, i as int, b as int),
        decreases b - i,
    {
        i = i + 1;
    }
    let mut j = b;
    while j > i && char_is_ws(v[j - 1])
        invariant
            a <= i <= j <= b <= v@.len(),
            skip_ws_back(v@, i as int, b as int) == skip_ws_back(v@, i as int, j as int),
        decreases j - i,
    {
        j = j - 1;
    }
    proof {
        lemma_skip_ws_shift(v@, a as int, b as int, a as int, b as int);
        lemma_skip_ws_shift(v@, a as int, b as int, i as int, b as int);
        assert(v@.subrange(a as int, b as int).len() == b - a);
        assert(v@.subrange(i as int, j as int) =~= v@.subrange(a as int, b as int).subrange(
            i - a,
            j - a,
        ));
    }
    (i, j)
}

/// First position of `c` at or after `i` and before `b`, or `b`.
pub fn find_char(v: &Vec<char>, c: char, i: usize, b: usize) -> (r: usize)
    requires
        i <= b <= v@.len(),
    ensures
        r == next_index_of(v@.subrange(0, b as int), c, i as int),
{
    let ghost s = v@.subrange(0, b as int);
    let mut k = i;
    while k < b
        invariant
            i <= k <= b <= v@.len(),
            s == v@.subrange(0, b as int),
            next_index_of(s, c, i as int) == next_index_of(s, c, k as int),
        decreases b - k,
    {
        if v[k] == c {
            return k;
        }
        k = k + 1;
    }
    k
}

/// Whether the range `[a, b)` of `v` holds exactly the characters of `w`.
pub fn range_eq(v: &Vec<char>, a: usize, b: usize, w: &Vec<char>) -> (r: bool)
    requires
        a <= b <= v@.len(),
    ensures
        r == (v@.subrange(a as int, b as int) == w@),
{
    if b - a != w.len() {
        proof {
            assert(v@.subrange(a as int, b as int).len() != w@.len());
        }
        return false;
    }
    let mut k: usize = 0;
    while k < w.len()
        invariant
            a <= b <= v@.len(),
            b - a == w@.len(),
            0 <= k <= w@.len(),
            forall|j: int| 0 <= j < k ==> v@[a + j] == w@[j],
        decreases w@.len() - k,
    {
        if v[a + k] != w[k] {
            proof {
                assert(v@.subrange(a as int, b as int)[k as int] != w@[k as int]);
            }
            return false;
        }
        k = k + 1;
    }
    proof {
        assert(v@.subrange(a as int, b as int) =~= w@);
    }
    true
}

pub open spec fn is_digit(c: char) -> bool {
    '0' <= c <= '9'
}

/// Decimal value of a digit string.
pub open spec fn digits_value(d: Seq<char>) -> int
    decreases d.len(),
{
    if d.len() == 0 {
        0
    } else {
        digits_value(d.drop_last()) * 10 + (d.last() as int - '0' as int)
    }
}

/// The digits of an unsigned number: an optional leading `+` is dropped.
pub open spec fn unsigned_digits(s: Seq<char>) -> Seq<char> {
    if s.len() > 0 && s[0] == '+' {
        s.drop_first()
    } else {
        s
    }
}

/// The unsigned integer `s` spells, as `str::parse` reads it for an
/// unsigned type whose largest value is `max`: an optional `+`, then at
/// least one ASCII digit and nothing else, of value at most `max`.
pub open spec fn parse_unsigned(s: Seq<char>, max: int) -> Option<int> {
    let d = unsigned_digits(s);
    if d.len() > 0 && (forall|k: int| 0 <= k < d.len() ==> is_digit(#[trigger] d[k])) && digits_value(d)
        <= max {
        Some(digits_value(d))
    } else {
        None
    }
}

proof fn lemma_digits_value_prefix(d: Seq<char>, k: int)
    requires
        0 <= k <= d.len(),
        forall|j: int| 0 <= j < d.len() ==> is_digit(#[trigger] d[j]),
    ensures
        0 <= digits_value(d.take(k)) <= digits_value(d),
    decreases d.len(),
{
    if d.len() == 0 {
        assert(d.take(k) =~= d);
    } else if k == d.len() {
        assert(d.take(k) =~= d);
        lemma_digits_value_nonneg(d);
    } else {
        assert forall|j: int| 0 <= j < d.drop_last().len() implies is_digit(#[trigger] d.drop_last()[j]) by {
            assert(d.drop_last()[j] == d[j]);
        }
        lemma_digits_value_prefix(d.drop_last(), k);
        assert(d.drop_last().take(k) =~= d.take(k));
        lemma_digits_value_nonneg(d.drop_last());
        assert(is_digit(d[d.len() - 1]));
    }
}

proof fn lemma_digits_value_nonneg(d: Seq<char>)
    requires
        forall|j: int| 0 <= j < d.len() ==> is_digit(#[trigger] d[j]),
    ensures
        digits_value(d) >= 0,
    decreases d.len(),
{
    if d.len() > 0 {
        assert forall|j: int| 0 <= j < d.drop_last().len() implies is_digit(#[trigger] d.drop_last()[j]) by {
            assert(d.drop_last()[j] == d[j]);
        }
        lemma_digits_value_nonneg(d.drop_last());
        assert(is_digit(d[d.len() - 1]));
    }
}

/// Parse the range `[a, b)` of `v` as an unsigned number no larger than
/// `max`.
pub fn parse_unsigned_range(v: &Vec<char>, a: usize, b: usize, max: u64) -> (r: Option<u64>)
    requires
        a <= b <= v@.len(),
    ensures
        match r {
            Some(n) => parse_unsigned(v@.subrange(a as int, b as int), max as int) == Some(n as int),
            None => parse_unsigned(v@.subrange(a as int, b as int), max as int) is None,
        },
{
    let ghost s = v@.subrange(a as int, b as int);
    let start = if a < b && v[a] == '+' { a + 1 } else { a };
    let ghost d = unsigned_digits(s);
    proof {
        assert(d =~= v@.subrange(start as int, b as int));
    }
    if start >= b {
        return None;
    }
    let mut value: u64 = 0;
    let mut k = start;
    while k < b
        invariant
            a <= start <= k <= b <= v@.len(),
            s == v@.subrange(a as int, b as int),
            d == unsigned_digits(s),
            d =~= v@.subrange(start as int, b as int),
            forall|j: int| 0 <= j < k - start ==> is_digit(#[trigger] d[j]),
            value == digits_value(d.take(k - start)),
            value <= max,
        decreases b - k,
    {
        let c = v[k];
        if !('0' <= c && c <= '9') {
            proof {
                assert(!is_digit(d[k - start]));
            }
            return None;
        }
        let digit = (c as u32 - '0' as u32) as u64;
        proof {
            assert(d.take(k - start + 1).drop_last() =~= d.take(k - start));
            assert(d.take(k - start + 1).last() == c);
        }
        if digit > max || value > (max - digit) / 10 {
            proof {
                if digit <= max {
                    assert(value * 10 + digit > max) by (nonlinear_arith)
                        requires value > (max - digit) / 10, 0 <= digit <= max;
                }
                let kk = k - start + 1;
                if forall|j: int| 0 <= j < d.len() ==> is_digit(#[trigger] d[j]) {
                    lemma_digits_value_prefix(d, kk);
                }
            }
            return None;
        }
        proof {
            assert(value * 10 + digit <= max) by (nonlinear_arith)
                requires value <= (max - digit) / 10, 0 <= digit <= max;
        }
        value = value * 10 + digit;
        k = k + 1;
    }
    proof {
        assert(d.take(b - start) =~= d);
    }
    Some(value)
}

} // verus!
