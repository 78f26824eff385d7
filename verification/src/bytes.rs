//! Small verified helpers on byte vectors and slices.

use vstd::prelude::*;

verus! {

/// `p` is a prefix of `s`.
pub open spec fn starts_with(s: Seq<u8>, p: Seq<u8>) -> bool {
    s.len() >= p.len() && s.subrange(0, p.len() as int) == p
}

/// Append every byte of `src` to `out`.
pub fn push_all(out: &mut Vec<u8>, src: &[u8])
    ensures
        final(out)@ == old(out)@ + src@,
{
    let mut i: usize = 0;
    while i < src.len()
        invariant
            i <= src@.len(),
            out@ == old(out)@ + src@.take(i as int),
        decreases src@.len() - i,
    {
        out.push(src[i]);
        assert(out@ =~= old(out)@ + src@.take(i + 1));
        i = i + 1;
    }
    assert(out@ =~= old(out)@ + src@);
}

/// Copy the bytes of `src[from..to]` into a fresh vector.
pub fn copy_range(src: &[u8], from: usize, to: usize) -> (r: Vec<u8>)
    requires
        from <= to <= src@.len(),
    ensures
        r@ == src@.subrange(from as int, to as int),
{
    let mut out: Vec<u8> = Vec::new();
    let mut i: usize = from;
    while i < to
        invariant
            from <= i <= to <= src@.len(),
            out@ == src@.subrange(from as int, i as int),
        decreases to - i,
    {
        out.push(src[i]);
        assert(out@ =~= src@.subrange(from as int, i + 1));
        i = i + 1;
    }
    out
}

/// The bytes of `a` starting at `a_at` match `p` exactly.
pub fn eq_at(a: &[u8], a_at: usize, p: &[u8]) -> (r: bool)
    requires
        a_at + p@.len() <= a@.len(),
    ensures
        r == (a@.subrange(a_at as int, a_at + p@.len()) == p@),
{
    let alen: usize = a.len();
    let mut i: usize = 0;
    while i < p.len()
        invariant
            i <= p@.len(),
            a_at + p@.len() <= a@.len(),
            alen == a@.len(),
            forall|j: int| 0 <= j < i ==> a@[a_at + j] == p@[j],
        decreases p@.len() - i,
    {
        assert(a_at + i < alen);
        if a[a_at + i] != p[i] {
            assert(a@.subrange(a_at as int, a_at + p@.len())[i as int] != p@[i as int]);
            return false;
        }
        i = i + 1;
    }
    assert(a@.subrange(a_at as int, a_at + p@.len()) =~= p@);
    true
}

/// Two byte strings hold the same bytes.
pub fn same_bytes(a: &[u8], b: &[u8]) -> (r: bool)
    ensures
        r == (a@ == b@),
{
    if a.len() != b.len() {
        return false;
    }
    let r = eq_at(a, 0, b);
    assert(a@.subrange(0, 0 + b@.len() as int) =~= a@);
    r
}

/// First index at or after `i` holding byte `b`, or the length of `s`.
pub open spec fn find_byte(s: Seq<u8>, i: int, b: u8) -> int
    decreases s.len() - i,
{
    if 0 <= i < s.len() {
        if s[i] == b {
            i
        } else {
            find_byte(s, i + 1, b)
        }
    } else {
        s.len() as int
    }
}

pub proof fn lemma_find_byte(s: Seq<u8>, i: int, b: u8)
    requires
        0 <= i <= s.len(),
    ensures
        i <= find_byte(s, i, b) <= s.len(),
        find_byte(s, i, b) < s.len() ==> s[find_byte(s, i, b)] == b,
        forall|j: int| i <= j < find_byte(s, i, b) ==> s[j] != b,
    decreases s.len() - i,
{
    if i < s.len() && s[i] != b {
        lemma_find_byte(s, i + 1, b);
    }
}

/// Scan for the first occurrence of `b` at or after `from`.
pub fn find_byte_from(data: &[u8], from: usize, b: u8) -> (r: usize)
    requires
        from <= data@.len(),
    ensures
        r == find_byte(data@, from as int, b),
        from <= r <= data@.len(),
        r < data@.len() ==> data@[r as int] == b,
        forall|j: int| from <= j < r ==> data@[j] != b,
{
    let dlen: usize = data.len();
    let mut i: usize = from;
    while i < dlen
        invariant
            from <= i <= dlen,
            dlen == data@.len(),
            find_byte(data@, from as int, b) == find_byte(data@, i as int, b),
            forall|j: int| from <= j < i ==> data@[j] != b,
        decreases dlen - i,
    {
        if data[i] == b {
            proof {
                lemma_find_byte(data@, from as int, b);
            }
            return i;
        }
        i = i + 1;
    }
    proof {
        lemma_find_byte(data@, from as int, b);
    }
    dlen
}

} // verus!
