//! The Pedersen hash of an address and a trie index: a commitment to a
//! domain-separated vector of five scalars built from the two.

use crate::commit::scalar_values;
use crate::error::CommitError;
use crate::field::{
    be_value, field_order, le_value, lemma_le_value_bound, lemma_le_value_split, pow256, Scalar,
};
use vstd::arithmetic::div_mod::lemma_small_mod;
use vstd::prelude::*;

verus! {

/// The first entry of every Pedersen hash vector, `2 + 256 * 64`, which keeps
/// these commitments apart from other uses of the same generators.
pub const PEDERSEN_DOMAIN: u64 = 16386;

/// The length of a Pedersen hash input: a 32-byte address, then a 32-byte index.
pub const PEDERSEN_INPUT_BYTES: usize = 64;

/// The vector committed to for `address` and `index`: the domain constant,
/// the low and high halves of the address (each read least significant byte
/// first), then the low and high halves of the index, which is read most
/// significant byte first.
pub open spec fn pedersen_values(address: Seq<u8>, index: Seq<u8>) -> Seq<nat> {
    seq![
        2 + 256 * 64,
        le_value(address.subrange(0, 16)),
        le_value(address.subrange(16, 32)),
        be_value(index.subrange(16, 32)),
        be_value(index.subrange(0, 16)),
    ]
}

proof fn lemma_pow256_16()
    ensures
        pow256(16) == 0x100000000000000000000000000000000nat,
{
    assert(pow256(0) == 1);
    assert(pow256(1) == 0x100nat);
    assert(pow256(2) == 0x10000nat);
    assert(pow256(3) == 0x1000000nat);
    assert(pow256(4) == 0x100000000nat);
    assert(pow256(5) == 0x10000000000nat);
    assert(pow256(6) == 0x1000000000000nat);
    assert(pow256(7) == 0x100000000000000nat);
    assert(pow256(8) == 0x10000000000000000nat);
    assert(pow256(9) == 0x1000000000000000000nat);
    assert(pow256(10) == 0x100000000000000000000nat);
    assert(pow256(11) == 0x10000000000000000000000nat);
    assert(pow256(12) == 0x1000000000000000000000000nat);
    assert(pow256(13) == 0x100000000000000000000000000nat);
    assert(pow256(14) == 0x10000000000000000000000000000nat);
    assert(pow256(15) == 0x1000000000000000000000000000000nat);
    assert(pow256(16) == 0x100000000000000000000000000000000nat);
}

/// Sixteen bytes, in either order, encode a value that needs no reduction.
proof fn lemma_half_is_canonical(s: Seq<u8>)
    requires
        s.len() == 16,
    ensures
        le_value(s) % field_order() == le_value(s),
        be_value(s) % field_order() == be_value(s),
{
    lemma_pow256_16();
    lemma_le_value_bound(s);
    lemma_le_value_bound(s.reverse());
    lemma_small_mod(le_value(s), field_order());
    lemma_small_mod(be_value(s), field_order());
}

/// The four entries after the domain constant are the low and high 128-bit
/// halves of the address and of the index:
/// `address == v[1] + 2^128 * v[2]` and `index == v[3] + 2^128 * v[4]`.
pub proof fn lemma_pedersen_halves(address: Seq<u8>, index: Seq<u8>)
    requires
        address.len() == 32,
        index.len() == 32,
    ensures
        ({
            let v = pedersen_values(address, index);
            &&& le_value(address) == v[1] + 0x100000000000000000000000000000000nat * v[2]
            &&& be_value(index) == v[3] + 0x100000000000000000000000000000000nat * v[4]
        }),
{
    lemma_pow256_16();
    lemma_le_value_split(address, 16);
    assert(address.take(16) =~= address.subrange(0, 16));
    assert(address.skip(16) =~= address.subrange(16, 32));
    let rev = index.reverse();
    lemma_le_value_split(rev, 16);
    assert(rev.take(16) =~= index.subrange(16, 32).reverse());
    assert(rev.skip(16) =~= index.subrange(0, 16).reverse());
}

/// Builds the five scalars that the Pedersen hash of a 64-byte input
/// commits to: the address is the first 32 bytes, the index the last 32.
pub fn pedersen_scalars(input: &[u8]) -> (r: Result<Vec<Scalar>, CommitError>)
    ensures
        r is Ok <==> input@.len() == 64,
        r is Err ==> r == Err::<Vec<Scalar>, CommitError>(CommitError::InvalidLength),
        r matches Ok(v) ==> scalar_values(v@) == pedersen_values(
            input@.subrange(0, 32),
            input@.subrange(32, 64),
        ),
{
    if input.len() != PEDERSEN_INPUT_BYTES {
        return Err(CommitError::InvalidLength);
    }
    let domain = Scalar::from_u64(PEDERSEN_DOMAIN);
    let address_low = Scalar::from_le_range(input, 0, 16);
    let address_high = Scalar::from_le_range(input, 16, 16);
    let index_low = Scalar::from_be_range(input, 48, 16);
    let index_high = Scalar::from_be_range(input, 32, 16);
    let ghost address = input@.subrange(0, 32);
    let ghost index = input@.subrange(32, 64);
    proof {
        assert(input@.subrange(0, 16) =~= address.subrange(0, 16));
        assert(input@.subrange(16, 32) =~= address.subrange(16, 32));
        assert(input@.subrange(48, 64) =~= index.subrange(16, 32));
        assert(input@.subrange(32, 48) =~= index.subrange(0, 16));
        lemma_half_is_canonical(address.subrange(0, 16));
        lemma_half_is_canonical(address.subrange(16, 32));
        lemma_half_is_canonical(index.subrange(16, 32));
        lemma_half_is_canonical(index.subrange(0, 16));
    }
    let mut v: Vec<Scalar> = Vec::with_capacity(5);
    v.push(domain);
    v.push(address_low);
    v.push(address_high);
    v.push(index_low);
    v.push(index_high);
    proof {
        assert(scalar_values(v@) =~= pedersen_values(address, index));
    }
    Ok(v)
}

/// The hash handed out for a commitment whose canonical encoding is
/// `encoding`: the same bytes in reverse order.
pub fn pedersen_hash_bytes(encoding: &[u8; 32]) -> (r: [u8; 32])
    ensures
        r@ == encoding@.reverse(),
{
    let mut out = [0u8; 32];
    let mut i: usize = 0;
    while i < 32
        invariant
            0 <= i <= 32,
            forall|j: int| 0 <= j < i ==> out@[j] == encoding@[31 - j],
        decreases 32 - i,
    {
        out[i] = encoding[31 - i];
        i = i + 1;
    }
    proof {
        assert(out@ =~= encoding@.reverse());
    }
    out
}

} // verus!
