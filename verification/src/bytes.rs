//! Big-endian integers, fixed-size pieces of byte strings, and copies of them.
use vstd::prelude::*;

verus! {

/// The two bytes of `v`, most significant first.
pub open spec fn be16(v: int) -> Seq<u8> {
    seq![(v / 256) as u8, (v % 256) as u8]
}

/// The number whose two big-endian bytes are `s`.
pub open spec fn from_be16(s: Seq<u8>) -> int {
    s[0] * 256 + s[1]
}

/// The four bytes of `v`, most significant first.
#[verifier::opaque]
pub open spec fn be32(v: int) -> Seq<u8> {
    be16(v / 0x1_0000) + be16(v % 0x1_0000)
}

/// The number whose four big-endian bytes are `s`.
#[verifier::opaque]
pub open spec fn from_be32(s: Seq<u8>) -> int {
    from_be16(s.subrange(0, 2)) * 0x1_0000 + from_be16(s.subrange(2, 4))
}

/// The eight bytes of `v`, most significant first.
#[verifier::opaque]
pub open spec fn be64(v: int) -> Seq<u8> {
    be32(v / 0x1_0000_0000) + be32(v % 0x1_0000_0000)
}

/// The number whose eight big-endian bytes are `s`.
#[verifier::opaque]
pub open spec fn from_be64(s: Seq<u8>) -> int {
    from_be32(s.subrange(0, 4)) * 0x1_0000_0000 + from_be32(s.subrange(4, 8))
}

/// `count` zero bytes.
pub open spec fn zeros(count: nat) -> Seq<u8> {
    Seq::new(count, |i: int| 0u8)
}

/// Two bytes and the number that they encode determine each other.
pub proof fn lemma_be16(v: int, s: Seq<u8>)
    requires
        s.len() == 2,
    ensures
        0 <= from_be16(s) < 0x1_0000,
        be16(from_be16(s)) == s,
        0 <= v < 0x1_0000 ==> from_be16(be16(v)) == v,
        be16(v).len() == 2,
{
    assert(be16(from_be16(s)) =~= s);
}

/// Four bytes and the number that they encode determine each other.
pub proof fn lemma_be32(v: int, s: Seq<u8>)
    requires
        s.len() == 4,
    ensures
        0 <= from_be32(s) < 0x1_0000_0000,
        be32(from_be32(s)) == s,
        0 <= v < 0x1_0000_0000 ==> from_be32(be32(v)) == v,
        be32(v).len() == 4,
{
    reveal(be32);
    reveal(from_be32);
    let hi = s.subrange(0, 2);
    let lo = s.subrange(2, 4);
    lemma_be16(v / 0x1_0000, hi);
    lemma_be16(v % 0x1_0000, lo);
    assert(be32(from_be32(s)) =~= hi + lo);
    assert(hi + lo =~= s);
    assert(be32(v).subrange(0, 2) =~= be16(v / 0x1_0000));
    assert(be32(v).subrange(2, 4) =~= be16(v % 0x1_0000));
}

/// Eight bytes and the number that they encode determine each other.
pub proof fn lemma_be64(v: int, s: Seq<u8>)
    requires
        s.len() == 8,
    ensures
        0 <= from_be64(s) < 0x1_0000_0000_0000_0000,
        be64(from_be64(s)) == s,
        0 <= v < 0x1_0000_0000_0000_0000 ==> from_be64(be64(v)) == v,
        be64(v).len() == 8,
{
    reveal(be64);
    reveal(from_be64);
    let hi = s.subrange(0, 4);
    let lo = s.subrange(4, 8);
    lemma_be32(v / 0x1_0000_0000, hi);
    lemma_be32(v % 0x1_0000_0000, lo);
    assert(be64(from_be64(s)) =~= hi + lo);
    assert(hi + lo =~= s);
    assert(be64(v).subrange(0, 4) =~= be32(v / 0x1_0000_0000));
    assert(be64(v).subrange(4, 8) =~= be32(v % 0x1_0000_0000));
}

/// Appends the two bytes of `v`.
pub fn put_be16(out: &mut Vec<u8>, v: u16)
    ensures
        final(out)@ == old(out)@ + be16(v as int),
{
    out.push((v / 256) as u8);
    out.push((v % 256) as u8);
}

/// Appends the four bytes of `v`.
pub fn put_be32(out: &mut Vec<u8>, v: u32)
    ensures
        final(out)@ == old(out)@ + be32(v as int),
{
    proof {
        reveal(be32);
    }
    put_be16(out, (v / 0x1_0000) as u16);
    put_be16(out, (v % 0x1_0000) as u16);
}

/// Appends the eight bytes of `v`.
pub fn put_be64(out: &mut Vec<u8>, v: u64)
    ensures
        final(out)@ == old(out)@ + be64(v as int),
{
    proof {
        reveal(be64);
    }
    put_be32(out, (v / 0x1_0000_0000) as u32);
    put_be32(out, (v % 0x1_0000_0000) as u32);
}

/// Reads the two bytes at `at`.
pub fn get_be16(s: &[u8], at: usize) -> (v: u16)
    requires
        at + 2 <= s@.len(),
    ensures
        v == from_be16(s@.subrange(at as int, at + 2)),
{
    let n: usize = s.len();
    s[at] as u16 * 256 + s[at + 1] as u16
}

/// Reads the four bytes at `at`.
pub fn get_be32(s: &[u8], at: usize) -> (v: u32)
    requires
        at + 4 <= s@.len(),
    ensures
        v == from_be32(s@.subrange(at as int, at + 4)),
{
    let n: usize = s.len();
    proof {
        reveal(from_be32);
        let t = s@.subrange(at as int, at + 4);
        assert(t.subrange(0, 2) =~= s@.subrange(at as int, at + 2));
        assert(t.subrange(2, 4) =~= s@.subrange(at + 2, at + 4));
    }
    get_be16(s, at) as u32 * 0x1_0000 + get_be16(s, at + 2) as u32
}

/// Reads the eight bytes at `at`.
pub fn get_be64(s: &[u8], at: usize) -> (v: u64)
    requires
        at + 8 <= s@.len(),
    ensures
        v == from_be64(s@.subrange(at as int, at + 8)),
{
    let n: usize = s.len();
    proof {
        reveal(from_be64);
        let t = s@.subrange(at as int, at + 8);
        assert(t.subrange(0, 4) =~= s@.subrange(at as int, at + 4));
        assert(t.subrange(4, 8) =~= s@.subrange(at + 4, at + 8));
    }
    get_be32(s, at) as u64 * 0x1_0000_0000 + get_be32(s, at + 4) as u64
}

/// The `N` bytes that stand at `at`.
pub fn take<const N: usize>(s: &[u8], at: usize) -> (r: [u8; N])
    requires
        at + N <= s@.len(),
    ensures
        r@ == s@.subrange(at as int, at + N),
{
    let mut r = [0u8; N];
    let mut i: usize = 0;
    while i < N
        invariant
            i <= N,
            at + N <= s.len(),
            forall|j: int| 0 <= j < i ==> r@[j] == s@[at + j],
        decreases N - i,
    {
        r[i] = s[at + i];
        i += 1;
    }
    r
}

/// The bytes from `from` up to `to`, as a string of their own.
pub fn copy_range(s: &[u8], from: usize, to: usize) -> (r: Vec<u8>)
    requires
        from <= to <= s@.len(),
    ensures
        r@ == s@.subrange(from as int, to as int),
{
    let mut r: Vec<u8> = Vec::new();
    r.extend_from_slice(vstd::slice::slice_subrange(s, from, to));
    assert(r@ =~= s@.subrange(from as int, to as int));
    r
}

/// Whether two byte strings are equal.
pub fn same_bytes(a: &[u8], b: &[u8]) -> (r: bool)
    ensures
        r == (a@ == b@),
{
    if a.len() != b.len() {
        return false;
    }
    let mut i: usize = 0;
    while i < a.len()
        invariant
            a.len() == b.len(),
            i <= a.len(),
            forall|j: int| 0 <= j < i ==> a@[j] == b@[j],
        decreases a.len() - i,
    {
        if a[i] != b[i] {
            assert(a@[i as int] != b@[i as int]);
            return false;
        }
        i += 1;
    }
    assert(a@ =~= b@);
    true
}

/// The bytes of a number are the digits of it to the base 256, the most significant
/// in front.
pub proof fn law_numbers_are_big_endian(v: int, s: Seq<u8>)
    requires
        0 <= v < 0x1_0000_0000_0000_0000,
        s.len() == 8,
    ensures
        v < 0x1_0000 ==> v == be16(v)[0] * 0x100 + be16(v)[1],
        v < 0x1_0000_0000 ==> v == be32(v)[0] * 0x100_0000 + be32(v)[1] * 0x1_0000 + be32(v)[2] * 0x100 + be32(v)[3],
        v == be64(v)[0] * 0x100_0000_0000_0000 + be64(v)[1] * 0x1_0000_0000_0000 + be64(v)[2] * 0x100_0000_0000
            + be64(v)[3] * 0x1_0000_0000 + be64(v)[4] * 0x100_0000 + be64(v)[5] * 0x1_0000 + be64(v)[6] * 0x100
            + be64(v)[7],
        from_be16(s.take(2)) == s[0] * 0x100 + s[1],
        from_be32(s.take(4)) == s[0] * 0x100_0000 + s[1] * 0x1_0000 + s[2] * 0x100 + s[3],
        from_be64(s) == s[0] * 0x100_0000_0000_0000 + s[1] * 0x1_0000_0000_0000 + s[2] * 0x100_0000_0000 + s[3]
            * 0x1_0000_0000 + s[4] * 0x100_0000 + s[5] * 0x1_0000 + s[6] * 0x100 + s[7],
{
    reveal(be32);
    reveal(from_be32);
    reveal(be64);
    reveal(from_be64);
    let (hi, lo) = (s.subrange(0, 4), s.subrange(4, 8));
    let low = s.take(4);
    assert(hi.subrange(0, 2)[0] == s[0] && hi.subrange(0, 2)[1] == s[1]);
    assert(hi.subrange(2, 4)[0] == s[2] && hi.subrange(2, 4)[1] == s[3]);
    assert(lo.subrange(0, 2)[0] == s[4] && lo.subrange(0, 2)[1] == s[5]);
    assert(lo.subrange(2, 4)[0] == s[6] && lo.subrange(2, 4)[1] == s[7]);
    assert(low =~= hi);
}

} // verus!
