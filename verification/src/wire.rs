//! Big-endian 32-bit integers as they appear on the peer wire.

use vstd::prelude::*;

verus! {

/// The number that four bytes denote when read most significant byte first.
pub open spec fn be32(b0: u8, b1: u8, b2: u8, b3: u8) -> int {
    b0 as int * 16777216 + b1 as int * 65536 + b2 as int * 256 + b3 as int
}

/// The number that the first four bytes of `s` denote, most significant first.
pub open spec fn be32_at(s: Seq<u8>, at: int) -> int
    recommends
        0 <= at,
        at + 4 <= s.len(),
{
    be32(s[at], s[at + 1], s[at + 2], s[at + 3])
}

/// The four bytes that denote `x`, most significant first.
pub open spec fn be32_bytes(x: u32) -> Seq<u8> {
    seq![
        (x as int / 16777216) as u8,
        (x as int / 65536 % 256) as u8,
        (x as int / 256 % 256) as u8,
        (x as int % 256) as u8,
    ]
}

/// Reading the four bytes of a number gives the number back.
pub proof fn lemma_be32_of_bytes(x: u32)
    ensures
        be32_bytes(x).len() == 4,
        be32_at(be32_bytes(x), 0) == x,
{
}

/// A number is fixed by its four bytes: writing what was read gives the bytes back.
pub proof fn lemma_bytes_of_be32(b0: u8, b1: u8, b2: u8, b3: u8)
    ensures
        0 <= be32(b0, b1, b2, b3) <= u32::MAX,
        be32_bytes(be32(b0, b1, b2, b3) as u32) =~= seq![b0, b1, b2, b3],
{
    let x = be32(b0, b1, b2, b3);
    let low3 = b1 as int * 65536 + b2 as int * 256 + b3 as int;
    let low2 = b2 as int * 256 + b3 as int;
    assert(x / 16777216 == b0) by {
        assert(x == b0 as int * 16777216 + low3 && 0 <= low3 < 16777216);
    }
    assert(x / 65536 == b0 as int * 256 + b1 as int) by {
        assert(x == (b0 as int * 256 + b1 as int) * 65536 + low2 && 0 <= low2 < 65536);
    }
    assert(x / 256 == b0 as int * 65536 + b1 as int * 256 + b2 as int) by {
        assert(x == (b0 as int * 65536 + b1 as int * 256 + b2 as int) * 256 + b3 as int);
    }
    assert(x % 256 == b3);
    assert((b0 as int * 256 + b1 as int) % 256 == b1);
    assert((b0 as int * 65536 + b1 as int * 256 + b2 as int) % 256 == b2) by {
        assert(b0 as int * 65536 + b1 as int * 256 + b2 as int == (b0 as int * 256 + b1 as int)
            * 256 + b2 as int);
    }
}

/// Assembles a number from four bytes, most significant first.
pub fn u32_from_be(b0: u8, b1: u8, b2: u8, b3: u8) -> (x: u32)
    ensures
        x == be32(b0, b1, b2, b3),
{
    let hi: u32 = b0 as u32 * 16777216 + b1 as u32 * 65536;
    let lo: u32 = b2 as u32 * 256 + b3 as u32;
    hi + lo
}

/// Splits a number into its four bytes, most significant first.
pub fn u32_to_be(x: u32) -> (b: [u8; 4])
    ensures
        b@ == be32_bytes(x),
{
    let b: [u8; 4] = [
        (x / 16777216) as u8,
        (x / 65536 % 256) as u8,
        (x / 256 % 256) as u8,
        (x % 256) as u8,
    ];
    assert(b@ =~= be32_bytes(x));
    b
}

/// Whether two runs of bytes are the same.
pub fn bytes_equal(a: &[u8], b: &[u8]) -> (same: bool)
    ensures
        same == (a@ == b@),
{
    if a.len() != b.len() {
        return false;
    }
    let mut i: usize = 0;
    while i < a.len()
        invariant
            i <= a@.len(),
            a@.len() == b@.len(),
            forall|k: int| 0 <= k < i ==> a@[k] == b@[k],
        decreases a@.len() - i,
    {
        if a[i] != b[i] {
            return false;
        }
        i += 1;
    }
    assert(a@ =~= b@);
    true
}

/// The `N` bytes of `src` that start at `at`, as an array.
pub fn array_from<const N: usize>(src: &[u8], at: usize) -> (out: [u8; N])
    requires
        at + N <= src@.len(),
    ensures
        out@ == src@.subrange(at as int, at + N),
{
    let available: usize = src.len();
    let mut out: [u8; N] = [0u8; N];
    let mut i: usize = 0;
    while i < N
        invariant
            i <= N,
            at + N <= available == src@.len(),
            forall|k: int| 0 <= k < i ==> out@[k] == src@[at + k],
        decreases N - i,
    {
        out[i] = src[at + i];
        i += 1;
    }
    assert(out@ =~= src@.subrange(at as int, at + N));
    out
}

} // verus!
