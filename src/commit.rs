//! Checking and decoding the input of a commitment, and the bytes handed
//! out once the group arithmetic has combined the scalars.

use crate::error::CommitError;
use crate::field::{be_value, field_order, le_value, lemma_le_value_zero, Scalar};
use vstd::prelude::*;

verus! {

/// The width of an encoded scalar, in bytes.
pub const SCALAR_BYTES: usize = 32;

/// The largest number of scalars a vector may hold.
pub const MAX_WIDTH: usize = 256;

/// Whether `input` is a whole number of 32-byte scalars, at most `MAX_WIDTH` of them.
pub open spec fn valid_input(input: Seq<u8>) -> bool {
    input.len() % 32 == 0 && input.len() / 32 <= 256
}

/// The error an input outside `valid_input` is refused with.
pub open spec fn input_error(input: Seq<u8>) -> CommitError {
    if input.len() % 32 != 0 {
        CommitError::InvalidLength
    } else {
        CommitError::TooManyElements
    }
}

/// The field element that the `k`-th 32-byte chunk of `input` stands for,
/// read most significant byte first.
pub open spec fn chunk_value(input: Seq<u8>, k: int) -> nat {
    be_value(input.subrange(32 * k, 32 * k + 32)) % field_order()
}

/// The field elements that the chunks of `input` stand for, in order.
pub open spec fn decoded(input: Seq<u8>) -> Seq<nat> {
    Seq::new(input.len() / 32, |k: int| chunk_value(input, k))
}

/// The field elements that a vector of scalars holds.
pub open spec fn scalar_values(v: Seq<Scalar>) -> Seq<nat> {
    v.map_values(|s: Scalar| s@)
}

/// Whether every element of `v` is zero; then any combination of generators
/// with `v` is the group identity.
pub open spec fn all_zero(v: Seq<nat>) -> bool {
    forall|k: int| 0 <= k < v.len() ==> v[k] == 0
}

/// Decodes a commitment input: a concatenation of 32-byte scalars, each read
/// most significant byte first and reduced modulo the field order.
pub fn decode_scalars(input: &[u8]) -> (r: Result<Vec<Scalar>, CommitError>)
    ensures
        r is Ok <==> valid_input(input@),
        !valid_input(input@) ==> r == Err::<Vec<Scalar>, CommitError>(input_error(input@)),
        r matches Ok(v) ==> scalar_values(v@) == decoded(input@),
{
    let len = input.len();
    if len % SCALAR_BYTES != 0 {
        return Err(CommitError::InvalidLength);
    }
    let width = len / SCALAR_BYTES;
    if width > MAX_WIDTH {
        return Err(CommitError::TooManyElements);
    }
    let mut out: Vec<Scalar> = Vec::with_capacity(width);
    let mut k: usize = 0;
    while k < width
        invariant
            len == input@.len(),
            len % 32 == 0,
            width == len / 32,
            width <= 256,
            0 <= k <= width,
            out@.len() == k,
            forall|j: int| 0 <= j < k ==> out@[j]@ == chunk_value(input@, j),
        decreases width - k,
    {
        let s = Scalar::from_be_range(input, k * SCALAR_BYTES, SCALAR_BYTES);
        out.push(s);
        k = k + 1;
    }
    proof {
        assert(scalar_values(out@) =~= decoded(input@));
    }
    Ok(out)
}

/// What a commitment over a decoded input still needs from the group arithmetic.
#[derive(Debug)]
pub enum CommitStep {
    /// Every scalar is zero, so the commitment is the group identity.
    Identity,
    /// The commitment is the combination of these scalars with the first
    /// generators, one generator per scalar.
    Combine(Vec<Scalar>),
}

/// Checks and decodes a commitment input, and settles the all-zero case,
/// the empty vector included, without any group arithmetic.
pub fn plan_commit(input: &[u8]) -> (r: Result<CommitStep, CommitError>)
    ensures
        r is Ok <==> valid_input(input@),
        !valid_input(input@) ==> r == Err::<CommitStep, CommitError>(input_error(input@)),
        r matches Ok(CommitStep::Identity) <==> valid_input(input@) && all_zero(decoded(input@)),
        r matches Ok(CommitStep::Combine(v)) ==> scalar_values(v@) == decoded(input@),
{
    match decode_scalars(input) {
        Err(e) => Err(e),
        Ok(scalars) => {
            let mut k: usize = 0;
            let mut zero = true;
            while k < scalars.len()
                invariant
                    0 <= k <= scalars@.len(),
                    zero <==> forall|j: int| 0 <= j < k ==> scalars@[j]@ == 0,
                decreases scalars@.len() - k,
            {
                if !scalars[k].is_zero() {
                    zero = false;
                }
                k = k + 1;
            }
            proof {
                assert(scalar_values(scalars@) == decoded(input@));
                if zero {
                    assert forall|j: int| 0 <= j < decoded(input@).len() implies decoded(input@)[j]
                        == 0 by {
                        assert(scalar_values(scalars@)[j] == scalars@[j]@);
                    }
                } else {
                    let j = choose|j: int| 0 <= j < k && scalars@[j]@ != 0;
                    assert(scalar_values(scalars@)[j] == scalars@[j]@);
                }
            }
            if zero {
                Ok(CommitStep::Identity)
            } else {
                Ok(CommitStep::Combine(scalars))
            }
        }
    }
}

/// An input of zero bytes, of any admissible width and the empty one
/// included, decodes to zeros only: `plan_commit` answers `Identity` for it.
pub proof fn lemma_zero_input_is_identity(input: Seq<u8>)
    requires
        valid_input(input),
        forall|j: int| 0 <= j < input.len() ==> input[j] == 0,
    ensures
        all_zero(decoded(input)),
{
    assert forall|k: int| 0 <= k < decoded(input).len() implies decoded(input)[k] == 0 by {
        let chunk = input.subrange(32 * k, 32 * k + 32).reverse();
        assert forall|j: int| 0 <= j < chunk.len() implies chunk[j] == 0 by {
            assert(chunk[j] == input[32 * k + 31 - j]);
        }
        lemma_le_value_zero(chunk);
    }
}

/// Folds a group element into a scalar, so that a child's commitment can be
/// an entry of its parent's vector. `mapped` is the base-field element that
/// the group maps the point to, least significant byte first; the fold is
/// that integer modulo the scalar field order. Points whose mapped elements
/// agree modulo the order fold alike: the fold is not injective.
pub fn fold(mapped: &[u8; 32]) -> (r: Scalar)
    ensures
        r@ == le_value(mapped@) % field_order(),
{
    Scalar::from_le_bytes_mod_order(mapped)
}

/// The bytes `commit` returns for a commitment whose mapped base-field
/// element is `mapped`: its fold, most significant byte first.
pub fn folded_commitment_bytes(mapped: &[u8; 32]) -> (r: [u8; 32])
    ensures
        be_value(r@) == le_value(mapped@) % field_order(),
{
    fold(mapped).to_be_bytes()
}

/// The encoding of the group identity, which is also its folded value:
/// thirty-two zero bytes.
pub fn identity_bytes() -> (r: [u8; 32])
    ensures
        r@ == Seq::new(32, |i: int| 0u8),
{
    let r = [0u8; 32];
    proof {
        assert(r@ =~= Seq::new(32, |i: int| 0u8));
    }
    r
}

/// Checks a request for the first `count` generators derived from `seed`.
pub fn check_generator_request(seed: &[u8], count: usize) -> (r: Result<(), CommitError>)
    ensures
        r is Ok <==> seed@.len() > 0 && count <= 256,
        r is Err ==> r == Err::<(), CommitError>(CommitError::InvalidCount),
{
    if seed.len() == 0 || count > MAX_WIDTH {
        Err(CommitError::InvalidCount)
    } else {
        Ok(())
    }
}

} // verus!
