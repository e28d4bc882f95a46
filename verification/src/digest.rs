//! Scores from SHA-256 digests.

use sha2::Digest;
use vstd::prelude::*;

verus! {

/// The SHA-256 digest of bytes.
pub uninterp spec fn sha256_of(bytes: Seq<u8>) -> Seq<u8>;

/// `sha2::Sha256::digest`: 32 bytes that depend on the input alone. Not stated: which.
#[verifier::external_body]
fn sha256(bytes: &[u8]) -> (r: Vec<u8>)
    ensures
        r@ == sha256_of(bytes@),
        r@.len() == 32,
{
    sha2::Sha256::digest(bytes).to_vec()
}

/// The number that bytes stand for, the first the most significant.
pub open spec fn big_endian(bytes: Seq<u8>) -> nat
    decreases bytes.len(),
{
    if bytes.len() == 0 {
        0
    } else {
        big_endian(bytes.drop_last()) * 256 + bytes.last() as nat
    }
}

/// The first eight bytes.
pub open spec fn first_eight(digest: Seq<u8>) -> Seq<u8> {
    Seq::new(8, |i: int| digest[i])
}

/// The score of a digest: the number that its first eight bytes stand for.
pub open spec fn digest_score_of(digest: Seq<u8>) -> nat {
    big_endian(first_eight(digest))
}

/// A score fits 64 bits.
pub proof fn lemma_score_fits(bytes: Seq<u8>)
    ensures
        score_of(bytes) <= u64::MAX,
{
    reveal_with_fuel(big_endian, 9);
}

/// The score of bytes: that of their digest.
pub open spec fn score_of(bytes: Seq<u8>) -> nat {
    digest_score_of(sha256_of(bytes))
}

/// The score of a digest.
pub fn digest_score(digest: &[u8]) -> (r: u64)
    requires
        digest@.len() >= 8,
    ensures
        r == digest_score_of(digest@),
{
    let ghost head = first_eight(digest@);
    let mut total: u64 = 0;
    let mut i: usize = 0;
    proof {
        assert(head.take(0) =~= Seq::<u8>::empty());
    }
    while i < 8
        invariant
            i <= 8,
            digest@.len() >= 8,
            head == first_eight(digest@),
            total == big_endian(head.take(i as int)),
            i == 0 ==> total < 1,
            i == 1 ==> total < 0x100,
            i == 2 ==> total < 0x1_0000,
            i == 3 ==> total < 0x100_0000,
            i == 4 ==> total < 0x1_0000_0000,
            i == 5 ==> total < 0x100_0000_0000,
            i == 6 ==> total < 0x1_0000_0000_0000,
            i == 7 ==> total < 0x100_0000_0000_0000,
        decreases 8 - i,
    {
        proof {
            assert(head.take(i + 1).drop_last() =~= head.take(i as int));
            assert(head.take(i + 1).last() == digest@[i as int]);
        }
        total = total * 256 + digest[i] as u64;
        i = i + 1;
    }
    proof {
        assert(head.take(8) =~= head);
    }
    total
}

/// The score of bytes.
pub fn score(bytes: &[u8]) -> (r: u64)
    ensures
        r == score_of(bytes@),
{
    digest_score(sha256(bytes).as_slice())
}

} // verus!
