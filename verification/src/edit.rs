//! The line editor of the terminal interface. Its text is kept as
//! characters and its cursor as a byte offset into the UTF-8 encoding, as a
//! `String` and its `len()` count them; inserting or removing at an offset
//! that is not a character boundary is what `String::insert` and
//! `String::remove` refuse by panicking.

use vstd::prelude::*;
use crate::text::push_char;

verus! {

/// Number of bytes of the UTF-8 encoding of `c` (`char::len_utf8`).
pub open spec fn char_width(c: char) -> nat {
    if (c as u32) < 0x80 {
        1
    } else if (c as u32) < 0x800 {
        2
    } else if (c as u32) < 0x10000 {
        3
    } else {
        4
    }
}

/// Number of bytes of the UTF-8 encoding of `s` (`String::len`).
pub open spec fn byte_len(s: Seq<char>) -> nat
    decreases s.len(),
{
    if s.len() == 0 {
        0
    } else {
        byte_len(s.drop_last()) + char_width(s.last())
    }
}

/// The character index whose prefix is `b` bytes long: `b` is a character
/// boundary exactly when there is one.
pub open spec fn boundary(s: Seq<char>, b: int) -> Option<int> {
    if exists|k: int| 0 <= k <= s.len() && byte_len(s.take(k)) == b {
        Some(choose|k: int| 0 <= k <= s.len() && byte_len(s.take(k)) == b)
    } else {
        None
    }
}

/// `s` with `c` inserted before index `k`.
pub open spec fn insert_at(s: Seq<char>, k: int, c: char) -> Seq<char> {
    s.take(k).push(c) + s.skip(k)
}

/// `s` without the character at index `k`.
pub open spec fn remove_at(s: Seq<char>, k: int) -> Seq<char> {
    s.take(k) + s.skip(k + 1)
}

/// Longer prefixes have more bytes.
pub proof fn lemma_prefix_bytes_increase(s: Seq<char>, j: int, k: int)
    requires
        0 <= j < k <= s.len(),
    ensures
        byte_len(s.take(j)) < byte_len(s.take(k)),
    decreases k - j,
{
    assert(s.take(k).drop_last() =~= s.take(k - 1));
    if j < k - 1 {
        lemma_prefix_bytes_increase(s, j, k - 1);
    }
}

/// There is at most one character index for a byte offset.
pub proof fn lemma_boundary_unique(s: Seq<char>, k: int)
    requires
        0 <= k <= s.len(),
    ensures
        boundary(s, byte_len(s.take(k)) as int) == Some(k),
{
    let b = byte_len(s.take(k)) as int;
    assert(0 <= k <= s.len() && byte_len(s.take(k)) == b);
    let c = choose|i: int| 0 <= i <= s.len() && byte_len(s.take(i)) == b;
    if c < k {
        lemma_prefix_bytes_increase(s, c, k);
    } else if c > k {
        lemma_prefix_bytes_increase(s, k, c);
    }
}

/// Bytes add up over concatenation.
pub proof fn lemma_byte_len_concat(a: Seq<char>, b: Seq<char>)
    ensures
        byte_len(a + b) == byte_len(a) + byte_len(b),
    decreases b.len(),
{
    if b.len() == 0 {
        assert(a + b =~= a);
    } else {
        assert((a + b).drop_last() =~= a + b.drop_last());
        lemma_byte_len_concat(a, b.drop_last());
    }
}

/// Inserting a character adds its width; removing one takes its width away;
/// a prefix has no more bytes than the whole.
pub proof fn lemma_edit_bytes(s: Seq<char>, k: int, c: char)
    requires
        0 <= k <= s.len(),
    ensures
        byte_len(insert_at(s, k, c)) == byte_len(s) + char_width(c),
        k < s.len() ==> byte_len(remove_at(s, k)) + char_width(s[k]) == byte_len(s),
        byte_len(s.take(k)) <= byte_len(s),
{
    assert(s =~= s.take(k) + s.skip(k));
    lemma_byte_len_concat(s.take(k), s.skip(k));
    lemma_byte_len_concat(s.take(k).push(c), s.skip(k));
    assert(s.take(k).push(c).drop_last() =~= s.take(k));
    if k < s.len() {
        assert(s.skip(k) =~= seq![s[k]] + s.skip(k + 1));
        lemma_byte_len_concat(seq![s[k]], s.skip(k + 1));
        assert(seq![s[k]].drop_last() =~= Seq::<char>::empty());
        assert(byte_len(Seq::<char>::empty()) == 0);
        assert(byte_len(seq![s[k]]) == char_width(s[k]));
        lemma_byte_len_concat(s.take(k), s.skip(k + 1));
        assert(remove_at(s, k) == s.take(k) + s.skip(k + 1));
    }
}

/// Executable `char_width`.
pub fn width_of(c: char) -> (w: u32)
    ensures
        w as nat == char_width(c),
{
    let u = c as u32;
    if u < 0x80 {
        1
    } else if u < 0x800 {
        2
    } else if u < 0x10000 {
        3
    } else {
        4
    }
}

/// The byte length of `s`.
pub fn byte_count(s: &Vec<char>) -> (r: u128)
    ensures
        r == byte_len(s@),
{
    let mut acc: u128 = 0;
    let mut k: usize = 0;
    while k < s.len()
        invariant
            k <= s@.len(),
            acc == byte_len(s@.take(k as int)),
            acc <= 4 * k,
        decreases s@.len() - k,
    {
        let w = width_of(s[k]);
        acc = acc + w as u128;
        k = k + 1;
        assert(s@.take(k as int).drop_last() =~= s@.take(k - 1));
    }
    assert(s@.take(s@.len() as int) =~= s@);
    acc
}

/// The character index at byte offset `b`, if `b` is a boundary.
pub fn find_boundary(s: &Vec<char>, b: usize) -> (r: Option<usize>)
    ensures
        match r {
            Some(k) => boundary(s@, b as int) == Some(k as int),
            None => boundary(s@, b as int) is None,
        },
{
    let mut acc: u128 = 0;
    let mut k: usize = 0;
    while k < s.len() && acc < b as u128
        invariant
            k <= s@.len(),
            acc == byte_len(s@.take(k as int)),
            acc <= 4 * k,
            forall|j: int| 0 <= j < k ==> byte_len(s@.take(j)) < b,
        decreases s@.len() - k,
    {
        let w = width_of(s[k]);
        proof {
            assert(s@.take(k + 1).drop_last() =~= s@.take(k as int));
        }
        acc = acc + w as u128;
        k = k + 1;
    }
    if acc == b as u128 {
        proof {
            lemma_boundary_unique(s@, k as int);
        }
        Some(k)
    } else {
        proof {
            assert forall|j: int| 0 <= j <= s@.len() implies byte_len(s@.take(j)) != b by {
                if j < k {
                } else if j > k {
                    lemma_prefix_bytes_increase(s@, k as int, j);
                }
            }
        }
        None
    }
}

/// The characters of a string.
pub fn chars_of(s: &str) -> (r: Vec<char>)
    ensures
        r@ == s@,
{
    let n = s.unicode_len();
    let mut out: Vec<char> = Vec::new();
    let mut i: usize = 0;
    while i < n
        invariant
            n == s@.len(),
            i <= n,
            out@ == s@.take(i as int),
        decreases n - i,
    {
        out.push(s.get_char(i));
        i = i + 1;
        assert(out@ =~= s@.take(i as int));
    }
    assert(s@.take(n as int) =~= s@);
    out
}

/// The string of some characters.
pub fn string_of(c: &Vec<char>) -> (r: String)
    ensures
        r@ == c@,
{
    let mut out = String::new();
    let mut i: usize = 0;
    while i < c.len()
        invariant
            i <= c@.len(),
            out@ == c@.take(i as int),
        decreases c@.len() - i,
    {
        push_char(&mut out, c[i]);
        i = i + 1;
        assert(out@ =~= c@.take(i as int));
    }
    assert(c@.take(c@.len() as int) =~= c@);
    out
}

/// Inserts `c` before index `k`.
pub fn vec_insert_at(s: &mut Vec<char>, k: usize, c: char)
    requires
        k <= old(s)@.len(),
    ensures
        final(s)@ == insert_at(old(s)@, k as int, c),
{
    s.insert(k, c);
    assert(final(s)@ =~= insert_at(old(s)@, k as int, c));
}

/// Removes the character at index `k`.
pub fn vec_remove_at(s: &mut Vec<char>, k: usize)
    requires
        k < old(s)@.len(),
    ensures
        final(s)@ == remove_at(old(s)@, k as int),
{
    s.remove(k);
    assert(final(s)@ =~= remove_at(old(s)@, k as int));
}

} // verus!
