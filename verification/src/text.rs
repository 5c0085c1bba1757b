//! Character-level text helpers: UTF-8 byte lengths of character
//! sequences, byte boundaries, and conversions between `&str`, `Vec<char>`
//! and `String`.

use vstd::prelude::*;

verus! {

/// Number of bytes of the UTF-8 encoding of one character.
pub open spec fn utf8_len(c: char) -> nat {
    if (c as u32) < 0x80 {
        1
    } else if (c as u32) < 0x800 {
        2
    } else if (c as u32) < 0x10000 {
        3
    } else {
        4
    }
}

/// Number of bytes of the UTF-8 encoding of a character sequence.
pub open spec fn byte_len(s: Seq<char>) -> nat
    decreases s.len(),
{
    if s.len() == 0 {
        0
    } else {
        byte_len(s.drop_last()) + utf8_len(s.last())
    }
}

/// `b` is a byte position that falls on a character boundary of `s`
/// (including 0 and the total byte length).
pub open spec fn is_boundary(s: Seq<char>, b: int) -> bool {
    exists|k: int| 0 <= k <= s.len() && byte_len(s.take(k)) == b
}

pub proof fn lemma_byte_len_concat(s1: Seq<char>, s2: Seq<char>)
    ensures
        byte_len(s1 + s2) == byte_len(s1) + byte_len(s2),
    decreases s2.len(),
{
    if s2.len() == 0 {
        assert(s1 + s2 =~= s1);
    } else {
        assert((s1 + s2).drop_last() =~= s1 + s2.drop_last());
        assert((s1 + s2).last() == s2.last());
        lemma_byte_len_concat(s1, s2.drop_last());
    }
}

pub proof fn lemma_byte_len_take_succ(s: Seq<char>, i: int)
    requires
        0 <= i < s.len(),
    ensures
        byte_len(s.take(i + 1)) == byte_len(s.take(i)) + utf8_len(s[i]),
{
    assert(s.take(i + 1).drop_last() =~= s.take(i));
    assert(s.take(i + 1).last() == s[i]);
}

pub proof fn lemma_byte_len_take_le(s: Seq<char>, i: int)
    requires
        0 <= i <= s.len(),
    ensures
        byte_len(s.take(i)) <= byte_len(s),
{
    assert(s =~= s.take(i) + s.skip(i));
    lemma_byte_len_concat(s.take(i), s.skip(i));
}

pub proof fn lemma_byte_len_take_mono(s: Seq<char>, i: int, j: int)
    requires
        0 <= i <= j <= s.len(),
    ensures
        byte_len(s.take(i)) <= byte_len(s.take(j)),
{
    assert(s.take(j).take(i) =~= s.take(i));
    lemma_byte_len_take_le(s.take(j), i);
}

pub proof fn lemma_byte_len_at_least_len(s: Seq<char>)
    ensures
        byte_len(s) >= s.len(),
    decreases s.len(),
{
    if s.len() > 0 {
        lemma_byte_len_at_least_len(s.drop_last());
    }
}

/// Position 0 and the full byte length are always boundaries.
pub proof fn lemma_boundary_ends(s: Seq<char>)
    ensures
        is_boundary(s, 0),
        is_boundary(s, byte_len(s) as int),
{
    assert(s.take(0) =~= Seq::<char>::empty());
    assert(byte_len(s.take(0)) == 0);
    assert(s.take(s.len() as int) =~= s);
}

/// A boundary of a prefix is a boundary of the whole sequence.
pub proof fn lemma_boundary_concat_left(s1: Seq<char>, s2: Seq<char>, b: int)
    requires
        is_boundary(s1, b),
    ensures
        is_boundary(s1 + s2, b),
{
    let k = choose|k: int| 0 <= k <= s1.len() && byte_len(s1.take(k)) == b;
    assert((s1 + s2).take(k) =~= s1.take(k));
}

/// A boundary of a suffix, shifted by the prefix byte length, is a
/// boundary of the whole sequence.
pub proof fn lemma_boundary_concat_right(s1: Seq<char>, s2: Seq<char>, b: int)
    requires
        is_boundary(s2, b),
    ensures
        is_boundary(s1 + s2, byte_len(s1) + b),
{
    let k = choose|k: int| 0 <= k <= s2.len() && byte_len(s2.take(k)) == b;
    assert((s1 + s2).take(s1.len() + k) =~= s1 + s2.take(k));
    lemma_byte_len_concat(s1, s2.take(k));
}

/// Executable UTF-8 length of one character.
pub fn char_len(c: char) -> (r: usize)
    ensures
        r == utf8_len(c),
{
    let u: u32 = c as u32;
    if u < 0x80 {
        1
    } else if u < 0x800 {
        2
    } else if u < 0x10000 {
        3
    } else {
        4
    }
}

/// The characters of a string slice as a vector.
pub fn str_chars(s: &str) -> (r: Vec<char>)
    ensures
        r@ == s@,
{
    let n: usize = s.unicode_len();
    let mut r: Vec<char> = Vec::new();
    let mut i: usize = 0;
    while i < n
        invariant
            n == s@.len(),
            0 <= i <= n,
            r@ == s@.take(i as int),
        decreases n - i,
    {
        let c = s.get_char(i);
        r.push(c);
        i = i + 1;
        proof {
            assert(r@ =~= s@.take(i as int));
        }
    }
    proof {
        assert(r@ =~= s@);
    }
    r
}

/// Relies on `String::push`: appends one character to the string.
#[verifier::external_body]
pub fn push_char(s: &mut String, c: char)
    ensures
        final(s)@ == old(s)@.push(c),
{
    s.push(c)
}

/// A `String` holding the characters `v[from..to]`.
pub fn chars_to_string(v: &Vec<char>, from: usize, to: usize) -> (r: String)
    requires
        from <= to <= v@.len(),
    ensures
        r@ == v@.subrange(from as int, to as int),
{
    let mut r: String = String::new();
    let mut i: usize = from;
    while i < to
        invariant
            from <= i <= to <= v@.len(),
            r@ == v@.subrange(from as int, i as int),
        decreases to - i,
    {
        push_char(&mut r, v[i]);
        i = i + 1;
        proof {
            assert(r@ =~= v@.subrange(from as int, i as int));
        }
    }
    r
}

/// Byte length of `v[0..upto]`, when the total byte length is known to
/// fit in `usize`.
pub fn byte_len_upto(v: &Vec<char>, upto: usize) -> (r: usize)
    requires
        upto <= v@.len(),
        byte_len(v@) <= usize::MAX,
    ensures
        r == byte_len(v@.take(upto as int)),
{
    let mut acc: usize = 0;
    let mut i: usize = 0;
    while i < upto
        invariant
            0 <= i <= upto <= v@.len(),
            byte_len(v@) <= usize::MAX,
            acc == byte_len(v@.take(i as int)),
        decreases upto - i,
    {
        proof {
            lemma_byte_len_take_succ(v@, i as int);
            lemma_byte_len_take_mono(v@, i as int + 1, v@.len() as int);
            assert(v@.take(v@.len() as int) =~= v@);
        }
        acc = acc + char_len(v[i]);
        i = i + 1;
    }
    acc
}

} // verus!
