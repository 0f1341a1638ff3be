//! SHA-1 digests: the list of piece digests of a torrent, and the digest of
//! a run of bytes.

use crate::bencode::ParseError;
use sha1::{Digest, Sha1};
use vstd::prelude::*;

verus! {

/// The SHA-1 digest of `data`: the twenty bytes that the `sha1` crate computes.
pub uninterp spec fn sha1_digest(data: Seq<u8>) -> Seq<u8>;

/// `<Sha1 as Digest>::digest`: the SHA-1 digest of the bytes, which depends on
/// the bytes alone. Nothing is claimed of the digest but that name.
#[verifier::external_body]
pub(crate) fn sha1_of(data: &[u8]) -> (digest: [u8; 20])
    ensures
        digest@ == sha1_digest(data@),
{
    Sha1::digest(data).into()
}

/// The digests of a torrent's pieces, one per piece, in piece order.
#[derive(Debug)]
pub struct Hashes(pub Vec<[u8; 20]>);

impl Clone for Hashes {
    /// A copy with the same digests.
    fn clone(&self) -> (res: Self)
        ensures
            res.0@ == self.0@,
            res@ == self@,
    {
        let mut digests: Vec<[u8; 20]> = Vec::new();
        let mut i: usize = 0;
        while i < self.0.len()
            invariant
                i <= self.0@.len(),
                digests@ == self.0@.take(i as int),
            decreases self.0@.len() - i,
        {
            digests.push(self.0[i]);
            proof {
                assert(self.0@.take(i + 1) =~= self.0@.take(i as int).push(self.0@[i as int]));
            }
            i += 1;
        }
        proof {
            assert(self.0@.take(i as int) =~= self.0@);
        }
        Hashes(digests)
    }
}

/// The digests laid end to end, as the metainfo file stores them.
pub open spec fn digests_flat(digests: Seq<Seq<u8>>) -> Seq<u8> {
    Seq::new(digests.len() * 20, |i: int| digests[i / 20][i % 20])
}

impl View for Hashes {
    type V = Seq<Seq<u8>>;

    open spec fn view(&self) -> Seq<Seq<u8>> {
        Seq::new(self.0@.len(), |i: int| self.0@[i]@)
    }
}

impl Hashes {
    /// The digest of the piece with this index; `None` past the last piece.
    pub fn at(&self, index: usize) -> (r: Option<&[u8; 20]>)
        ensures
            r is Some <==> index < self@.len(),
            r matches Some(d) ==> d@ == self@[index as int] && *d == self.0@[index as int],
    {
        if index < self.0.len() {
            Some(&self.0[index])
        } else {
            None
        }
    }

    /// The number of digests.
    pub fn len(&self) -> (n: usize)
        ensures
            n == self@.len(),
    {
        self.0.len()
    }

    /// Cuts `value` into digests of twenty bytes. A length that is no
    /// multiple of twenty is refused.
    pub fn from_bytes(value: &[u8]) -> (r: Result<Hashes, ParseError>)
        ensures
            r is Ok <==> value@.len() % 20 == 0,
            r matches Ok(h) ==> {
                &&& h@.len() == value@.len() / 20
                &&& forall|i: int|
                    0 <= i < h@.len() ==> #[trigger] h@[i] == value@.subrange(20 * i, 20 * i + 20)
                &&& digests_flat(h@) == value@
            },
            r matches Err(e) ==> e == ParseError::Schema,
    {
        if value.len() % 20 != 0 {
            return Err(ParseError::Schema);
        }
        let count: usize = value.len() / 20;
        let mut digests: Vec<[u8; 20]> = Vec::new();
        let mut i: usize = 0;
        while i < count
            invariant
                i <= count,
                count * 20 == value@.len() <= usize::MAX,
                digests@.len() == i,
                forall|k: int|
                    0 <= k < i ==> (#[trigger] digests@[k])@ == value@.subrange(20 * k, 20 * k + 20),
            decreases count - i,
        {
            let mut digest: [u8; 20] = [0u8; 20];
            let mut j: usize = 0;
            while j < 20
                invariant
                    j <= 20,
                    20 * i + 20 <= value@.len() <= usize::MAX,
                    forall|k: int| 0 <= k < j ==> digest@[k] == value@[20 * i + k],
                decreases 20 - j,
            {
                digest[j] = value[20 * i + j];
                j += 1;
            }
            proof {
                assert(digest@ =~= value@.subrange(20 * i, 20 * i + 20));
            }
            digests.push(digest);
            i += 1;
        }
        let h = Hashes(digests);
        proof {
            assert forall|k: int| 0 <= k < h@.len() implies #[trigger] h@[k] == value@.subrange(
                20 * k,
                20 * k + 20,
            ) by {
                assert(h@[k] == digests@[k]@);
            }
            assert(digests_flat(h@) =~= value@) by {
                assert forall|x: int| 0 <= x < value@.len() implies digests_flat(h@)[x]
                    == value@[x] by {
                    let k = x / 20;
                    assert(h@[k] == value@.subrange(20 * k, 20 * k + 20));
                }
            }
        }
        Ok(h)
    }

    /// The digests laid end to end.
    pub fn to_bytes(&self) -> (out: Vec<u8>)
        ensures
            out@ == digests_flat(self@),
    {
        let mut out: Vec<u8> = Vec::new();
        let mut i: usize = 0;
        while i < self.0.len()
            invariant
                i <= self.0@.len(),
                out@.len() == i * 20,
                forall|x: int| 0 <= x < out@.len() ==> out@[x] == self@[x / 20][x % 20],
            decreases self.0@.len() - i,
        {
            let digest: &[u8; 20] = &self.0[i];
            let mut j: usize = 0;
            while j < 20
                invariant
                    j <= 20,
                    i < self.0@.len(),
                    digest@ == self@[i as int],
                    out@.len() == i * 20 + j,
                    forall|x: int| 0 <= x < out@.len() ==> out@[x] == self@[x / 20][x % 20],
                decreases 20 - j,
            {
                out.push(digest[j]);
                j += 1;
            }
            i += 1;
        }
        proof {
            assert(out@ =~= digests_flat(self@));
        }
        out
    }
}

/// Cutting the flat form into digests and laying them end to end again gives
/// the same bytes; `Hashes::from_bytes` states the one direction, this the other.
pub proof fn lemma_digests_flat_cut(digests: Seq<Seq<u8>>, i: int)
    requires
        0 <= i < digests.len(),
        forall|k: int| 0 <= k < digests.len() ==> (#[trigger] digests[k]).len() == 20,
    ensures
        digests_flat(digests).len() == digests.len() * 20,
        digests_flat(digests).subrange(20 * i, 20 * i + 20) == digests[i],
{
    let flat = digests_flat(digests);
    let cut = flat.subrange(20 * i, 20 * i + 20);
    assert(cut.len() == 20);
    assert forall|x: int| 0 <= x < 20 implies cut[x] == digests[i][x] by {
        assert(cut[x] == flat[20 * i + x]);
        assert((20 * i + x) / 20 == i);
        assert((20 * i + x) % 20 == x);
    }
    assert(cut =~= digests[i]);
}

} // verus!
