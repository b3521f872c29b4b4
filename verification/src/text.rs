//! Texts as sequences of characters: finding one text in another, and the
//! places of a character.

use vstd::prelude::*;

verus! {

/// The characters of a text.
pub fn chars_of(s: &str) -> (v: Vec<char>)
    ensures
        v@ == s@,
{
    let mut v: Vec<char> = Vec::new();
    for c in it: s.chars()
        invariant
            it.seq() == s@,
            v@ == s@.take(it.index() as int),
    {
        v.push(c);
        assert(s@.take(it.index() + 1).drop_last() =~= s@.take(it.index() as int));
    }
    assert(s@.take(s@.len() as int) =~= s@);
    v
}

/// Whether `p` stands in `s` at the place `i`.
pub open spec fn stands_at(s: Seq<char>, p: Seq<char>, i: int) -> bool {
    0 <= i && i + p.len() <= s.len() && s.subrange(i, i + p.len()) == p
}

/// The first place at or after `i` where `p` stands in `s`, or the length of
/// `s` if there is none.
pub open spec fn first_match(s: Seq<char>, p: Seq<char>, i: int) -> int
    decreases s.len() - i,
{
    if i < 0 || i >= s.len() || i + p.len() > s.len() {
        s.len() as int
    } else if stands_at(s, p, i) {
        i
    } else {
        first_match(s, p, i + 1)
    }
}

/// The first place at or after `i` where `c` stands in `s`, or the length of
/// `s` if there is none.
pub open spec fn next_char(s: Seq<char>, c: char, i: int) -> int
    decreases s.len() - i,
{
    if 0 <= i < s.len() && s[i] != c {
        next_char(s, c, i + 1)
    } else if i < 0 || i > s.len() {
        s.len() as int
    } else {
        i
    }
}

/// Tells whether `p` stands in `s` at the place `i`.
pub fn stands_at_exec(s: &Vec<char>, p: &Vec<char>, i: usize) -> (b: bool)
    ensures
        b == stands_at(s@, p@, i as int),
{
    if p.len() > s.len() || i > s.len() - p.len() {
        return false;
    }
    let m = p.len();
    let n = s.len();
    let mut k: usize = 0;
    while k < m
        invariant
            k <= m,
            m == p@.len(),
            n == s@.len(),
            i + m <= n,
            forall|j: int| 0 <= j < k ==> s@[i + j] == p@[j],
        decreases m - k,
    {
        if s[i + k] != p[k] {
            assert(s@.subrange(i as int, i + m)[k as int] != p@[k as int]);
            return false;
        }
        k += 1;
    }
    assert(s@.subrange(i as int, i + m) =~= p@);
    true
}

/// The first place at or after `from` where `p` stands in `s`, or the length
/// of `s`.
pub fn find_from(s: &Vec<char>, p: &Vec<char>, from: usize) -> (r: usize)
    ensures
        r == first_match(s@, p@, from as int),
{
    let n = s.len();
    let mut i: usize = from;
    while i < n
        invariant
            from <= i,
            n == s@.len(),
            first_match(s@, p@, from as int) == first_match(s@, p@, i as int),
        decreases n - i,
    {
        if p.len() > n - i {
            return n;
        }
        if stands_at_exec(s, p, i) {
            return i;
        }
        i += 1;
    }
    n
}

/// The first place at or after `from` where `c` stands in `s`, or the length
/// of `s`.
pub fn find_char(s: &Vec<char>, c: char, from: usize) -> (r: usize)
    ensures
        r == next_char(s@, c, from as int),
        from <= s@.len() ==> from <= r <= s@.len(),
        r < s@.len() ==> s@[r as int] == c,
{
    let n = s.len();
    if from > n {
        return n;
    }
    let mut i: usize = from;
    while i < n && s[i] != c
        invariant
            from <= i <= n,
            n == s@.len(),
            next_char(s@, c, from as int) == next_char(s@, c, i as int),
        decreases n - i,
    {
        i += 1;
    }
    i
}

/// Whether `a` comes before `b` or is `b`, in the order of the dictionary
/// with the characters in the order of their code points.
pub open spec fn text_le(a: Seq<char>, b: Seq<char>) -> bool
    decreases a.len(),
{
    if a.len() == 0 {
        true
    } else if b.len() == 0 {
        false
    } else if a[0] != b[0] {
        (a[0] as u32) < (b[0] as u32)
    } else {
        text_le(a.drop_first(), b.drop_first())
    }
}

/// Whether the texts stand in that order.
pub open spec fn sorted_texts(s: Seq<Seq<char>>) -> bool {
    forall|i: int, j: int| 0 <= i < j < s.len() ==> text_le(s[i], s[j])
}

/// `sort` of a slice, on texts: afterwards the same texts stand in the order
/// in which the standard library compares them, byte by byte, which for
/// UTF-8 is the order of the code points.
#[verifier::external_body]
pub(crate) fn sort_texts(v: &mut Vec<String>)
    ensures
        sorted_texts(final(v).deep_view()),
        final(v).deep_view().to_multiset() == old(v).deep_view().to_multiset(),
{
    v.sort();
}

} // verus!
