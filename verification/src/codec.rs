//! Canonicalizes a fixed-length byte block into an arbitrary-precision key.
//!
//! A block's key is the unsigned integer formed by reading its bytes in
//! little-endian order.  Distinct byte contents give distinct keys, and a
//! block of `w` bytes always encodes below `2^(8*w)`.

use vstd::prelude::*;
use vstd::arithmetic::power2::{pow2, lemma_pow2_adds, lemma2_to64};
use num_bigint::BigUint;
use crate::bignum::big_value;

verus! {

/// The little-endian value of a byte sequence: the first byte is the least
/// significant.
pub open spec fn le_value(bytes: Seq<u8>) -> nat
    decreases bytes.len(),
{
    if bytes.len() == 0 {
        0
    } else {
        bytes[0] as nat + 256 * le_value(bytes.drop_first())
    }
}

/// The keys of a whole block collection, in order.
pub open spec fn keys_of(blocks: Seq<Vec<u8>>) -> Seq<nat> {
    blocks.map_values(|b: Vec<u8>| le_value(b@))
}

/// A block of `w` bytes encodes strictly below `2^(8*w)`.
pub proof fn lemma_le_value_bound(bytes: Seq<u8>)
    ensures
        le_value(bytes) < pow2((8 * bytes.len()) as nat),
    decreases bytes.len(),
{
    lemma2_to64();
    if bytes.len() == 0 {
    } else {
        let rest = bytes.drop_first();
        lemma_le_value_bound(rest);
        lemma_pow2_adds(8, (8 * rest.len()) as nat);
        assert(le_value(bytes) == bytes[0] as nat + 256 * le_value(rest));
        assert(le_value(rest) <= pow2((8 * rest.len()) as nat) - 1);
        assert(256 * le_value(rest) <= 256 * (pow2((8 * rest.len()) as nat) - 1))
            by (nonlinear_arith)
            requires
                le_value(rest) <= pow2((8 * rest.len()) as nat) - 1,
        ;
    }
}

/// Encoding is injective: two equal-length blocks with the same key hold
/// the same bytes.
pub proof fn lemma_le_value_injective(a: Seq<u8>, b: Seq<u8>)
    requires
        a.len() == b.len(),
        le_value(a) == le_value(b),
    ensures
        a =~= b,
    decreases a.len(),
{
    if a.len() > 0 {
        let x = a[0] as nat;
        let y = b[0] as nat;
        let ra = le_value(a.drop_first());
        let rb = le_value(b.drop_first());
        assert(x == y && ra == rb) by (nonlinear_arith)
            requires
                x + 256 * ra == y + 256 * rb,
                x < 256,
                y < 256,
        ;
        lemma_le_value_injective(a.drop_first(), b.drop_first());
        assert(a =~= b) by {
            assert(forall|i: int|
                1 <= i < a.len() ==> #[trigger] a[i] == a.drop_first()[i - 1] && b[i]
                    == b.drop_first()[i - 1]);
        }
    }
}

/// Every block of the collection has exactly `width` bytes.
pub open spec fn blocks_sized(blocks: Seq<Vec<u8>>, width: nat) -> bool {
    forall|j: int| 0 <= j < blocks.len() ==> (#[trigger] blocks[j])@.len() == width
}

/// The keys of a collection of `width`-byte blocks all lie below the value
/// space `2^(8*width)`.
pub proof fn lemma_keys_bounded(blocks: Seq<Vec<u8>>, width: nat)
    requires
        blocks_sized(blocks, width),
    ensures
        forall|j: int| 0 <= j < blocks.len() ==> #[trigger] keys_of(blocks)[j] < pow2(8 * width),
{
    assert forall|j: int| 0 <= j < blocks.len() implies #[trigger] keys_of(blocks)[j] < pow2(
        8 * width,
    ) by {
        lemma_le_value_bound(blocks[j]@);
    }
}

/// Relies on `BigUint::from_bytes_le`: builds the integer whose little-endian
/// byte expansion is the given slice.
#[verifier::external_body]
fn big_from_bytes_le(bytes: &Vec<u8>) -> (r: BigUint)
    ensures
        big_value(r) == le_value(bytes@),
{
    BigUint::from_bytes_le(bytes.as_slice())
}

/// Encodes a block into its canonical key: the unsigned integer formed by
/// treating the bytes as little-endian.
pub fn encode(block: &Vec<u8>) -> (key: BigUint)
    ensures
        big_value(key) == le_value(block@),
{
    big_from_bytes_le(block)
}

} // verus!
