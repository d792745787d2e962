//! Character-level helpers: decimal rendering of integers, padding,
//! indentation and Unicode whitespace trimming.

use vstd::prelude::*;

verus! {

/// Appends one character to a `String` (std's `String::push`).
#[verifier::external_body]
pub(crate) fn push_char(s: &mut String, c: char)
    ensures
        final(s)@ == old(s)@.push(c),
{
    s.push(c);
}

/// The character of a decimal digit.
pub open spec fn digit_char(d: int) -> char {
    if d == 0 { '0' }
    else if d == 1 { '1' }
    else if d == 2 { '2' }
    else if d == 3 { '3' }
    else if d == 4 { '4' }
    else if d == 5 { '5' }
    else if d == 6 { '6' }
    else if d == 7 { '7' }
    else if d == 8 { '8' }
    else { '9' }
}

/// Decimal digits of a natural number, most significant first, no leading zeros.
pub open spec fn nat_digits(n: nat) -> Seq<char>
    decreases n,
{
    if n < 10 {
        seq![digit_char(n as int)]
    } else {
        nat_digits(n / 10).push(digit_char((n % 10) as int))
    }
}

/// Decimal rendering of an integer, as `Display` writes it.
pub open spec fn int_chars(x: int) -> Seq<char> {
    if x < 0 {
        seq!['-'] + nat_digits((-x) as nat)
    } else {
        nat_digits(x as nat)
    }
}

fn digit_to_char(d: u64) -> (c: char)
    requires
        d < 10,
    ensures
        c == digit_char(d as int),
{
    match d {
        0 => '0',
        1 => '1',
        2 => '2',
        3 => '3',
        4 => '4',
        5 => '5',
        6 => '6',
        7 => '7',
        8 => '8',
        _ => '9',
    }
}

fn push_nat_digits(out: &mut String, n: u64)
    ensures
        final(out)@ == old(out)@ + nat_digits(n as nat),
    decreases n,
{
    if n >= 10 {
        push_nat_digits(out, n / 10);
    }
    let c = digit_to_char(n % 10);
    push_char(out, c);
    proof {
        assert(old(out)@ + nat_digits(n as nat) =~= final(out)@);
    }
}

/// Appends the decimal rendering of `x`.
pub fn push_int(out: &mut String, x: i32)
    ensures
        final(out)@ == old(out)@ + int_chars(x as int),
{
    if x < 0 {
        push_char(out, '-');
        let m: u64 = (0i64 - (x as i64)) as u64;
        push_nat_digits(out, m);
        proof {
            assert(final(out)@ =~= old(out)@ + int_chars(x as int));
        }
    } else {
        push_nat_digits(out, x as u64);
    }
}

/// `x.to_string()` for an `i32`.
pub fn int_to_string(x: i32) -> (s: String)
    ensures
        s@ == int_chars(x as int),
{
    let mut s = String::new();
    push_int(&mut s, x);
    proof {
        assert(s@ =~= int_chars(x as int));
    }
    s
}


/// `k` copies of the space character.
pub open spec fn spaces(k: nat) -> Seq<char> {
    Seq::new(k, |i: int| ' ')
}

/// Appends `k` spaces.
pub fn push_spaces(out: &mut String, k: usize)
    ensures
        final(out)@ == old(out)@ + spaces(k as nat),
{
    let mut i: usize = 0;
    while i < k
        invariant
            i <= k,
            out@ == old(out)@ + spaces(i as nat),
        decreases k - i,
    {
        push_char(out, ' ');
        i = i + 1;
        assert(out@ =~= old(out)@ + spaces(i as nat));
    }
}

/// Left-aligned field of at least `width` characters, as `{:<width}` formats it:
/// the text itself, then spaces up to the width.
pub open spec fn pad_right(s: Seq<char>, width: nat) -> Seq<char> {
    if s.len() >= width {
        s
    } else {
        s + spaces((width - s.len()) as nat)
    }
}

/// Appends `s` left-aligned in a field of `width` characters.
pub fn push_padded(out: &mut String, s: &str, width: usize)
    ensures
        final(out)@ == old(out)@ + pad_right(s@, width as nat),
{
    let n = s.unicode_len();
    out.append(s);
    if n < width {
        push_spaces(out, width - n);
    }
    assert(final(out)@ =~= old(out)@ + pad_right(s@, width as nat));
}

/// `char::is_whitespace`: the characters with the Unicode `White_Space` property.
pub open spec fn is_ws(c: char) -> bool {
    ||| ('\u{9}' <= c && c <= '\u{d}')
    ||| c == ' '
    ||| c == '\u{85}'
    ||| c == '\u{a0}'
    ||| c == '\u{1680}'
    ||| ('\u{2000}' <= c && c <= '\u{200a}')
    ||| c == '\u{2028}'
    ||| c == '\u{2029}'
    ||| c == '\u{202f}'
    ||| c == '\u{205f}'
    ||| c == '\u{3000}'
}

/// Executable `is_ws`.
pub fn char_is_ws(c: char) -> (b: bool)
    ensures
        b == is_ws(c),
{
    ('\u{9}' <= c && c <= '\u{d}') || c == ' ' || c == '\u{85}' || c == '\u{a0}'
        || c == '\u{1680}' || ('\u{2000}' <= c && c <= '\u{200a}') || c == '\u{2028}'
        || c == '\u{2029}' || c == '\u{202f}' || c == '\u{205f}' || c == '\u{3000}'
}

/// `str::trim`: the text without its leading and trailing whitespace.
pub open spec fn trim(s: Seq<char>) -> Seq<char> {
    s.subrange(trim_lo(s, 0), trim_hi(s, s.len() as int))
}

/// First index at or after `i` whose character is not whitespace (or the length).
pub open spec fn trim_lo(s: Seq<char>, i: int) -> int
    decreases s.len() - i,
{
    if i >= s.len() || i < 0 {
        s.len() as int
    } else if is_ws(s[i]) {
        trim_lo(s, i + 1)
    } else {
        i
    }
}

/// One past the last non-whitespace character at or before `j - 1`, but not
/// below the first non-whitespace position.
pub open spec fn trim_hi(s: Seq<char>, j: int) -> int
    decreases j,
{
    if j <= trim_lo(s, 0) || j <= 0 {
        trim_lo(s, 0)
    } else if is_ws(s[j - 1]) {
        trim_hi(s, j - 1)
    } else {
        j
    }
}

proof fn lemma_trim_lo_bounds(s: Seq<char>, i: int)
    requires
        0 <= i <= s.len(),
    ensures
        i <= trim_lo(s, i) <= s.len(),
    decreases s.len() - i,
{
    if i < s.len() && is_ws(s[i]) {
        lemma_trim_lo_bounds(s, i + 1);
    }
}

proof fn lemma_trim_hi_bounds(s: Seq<char>, j: int)
    requires
        trim_lo(s, 0) <= j <= s.len(),
    ensures
        trim_lo(s, 0) <= trim_hi(s, j) <= j,
    decreases j,
{
    if j > trim_lo(s, 0) && j > 0 && is_ws(s[j - 1]) {
        lemma_trim_hi_bounds(s, j - 1);
    }
}

/// `s.trim().to_string()`.
pub fn trim_str(s: &str) -> (r: String)
    ensures
        r@ == trim(s@),
{
    let n = s.unicode_len();
    let mut lo: usize = 0;
    proof {
        lemma_trim_lo_bounds(s@, 0);
    }
    while lo < n && char_is_ws(s.get_char(lo))
        invariant
            n == s@.len(),
            lo <= n,
            trim_lo(s@, lo as int) == trim_lo(s@, 0),
        decreases n - lo,
    {
        lo = lo + 1;
    }
    let mut hi: usize = n;
    while hi > lo && char_is_ws(s.get_char(hi - 1))
        invariant
            n == s@.len(),
            lo == trim_lo(s@, 0),
            lo <= hi <= n,
            trim_hi(s@, hi as int) == trim_hi(s@, n as int),
        decreases hi,
    {
        hi = hi - 1;
    }
    let mut r = String::new();
    let mut k: usize = lo;
    while k < hi
        invariant
            lo <= k <= hi <= n,
            n == s@.len(),
            r@ == s@.subrange(lo as int, k as int),
        decreases hi - k,
    {
        push_char(&mut r, s.get_char(k));
        k = k + 1;
        assert(r@ =~= s@.subrange(lo as int, k as int));
    }
    r
}

} // verus!
