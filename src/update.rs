//! Updating a commitment when one entry of its vector changes, without
//! combining the whole vector again.
//!
//! A commitment to `v` is the combination of the generators with the
//! coefficients `coefficients(v)`. Updating position `index` from `old` to
//! `new` adds `new - old` times the `index`-th generator, which moves that
//! one coefficient. The laws below state that updates land exactly on the
//! coefficients of the commitment to the updated vector.

use crate::commit::MAX_WIDTH;
use crate::error::CommitError;
use crate::field::{be_value, field_order, Scalar};
use vstd::prelude::*;

verus! {

/// The field element that moves a coefficient from `old` to `new`.
pub open spec fn delta_value(old: nat, new: nat) -> nat {
    ((new - old) % (field_order() as int)) as nat
}

/// The coefficients, one per generator, of the commitment to `v`: `v`
/// itself, then zeros up to the full width.
pub open spec fn coefficients(v: Seq<nat>) -> Seq<nat> {
    Seq::new(256, |k: int| if k < v.len() { v[k] } else { 0 })
}

/// The coefficients after `delta` times the `index`-th generator is added.
pub open spec fn shifted(c: Seq<nat>, index: int, delta: nat) -> Seq<nat> {
    c.update(index, (c[index] + delta) % field_order())
}

/// Whether every element of `v` is a canonical field element.
pub open spec fn canonical(v: Seq<nat>) -> bool {
    forall|k: int| 0 <= k < v.len() ==> v[k] < field_order()
}

/// Checks an update of position `index` from `old_scalar` to `new_scalar`
/// (both read most significant byte first, modulo the field order) and
/// gives the multiple of the `index`-th generator to add to the commitment.
pub fn update_delta(index: usize, old_scalar: &[u8; 32], new_scalar: &[u8; 32]) -> (r: Result<
    Scalar,
    CommitError,
>)
    ensures
        r is Ok <==> index < 256,
        r is Err ==> r == Err::<Scalar, CommitError>(CommitError::IndexOutOfRange),
        r matches Ok(d) ==> d@ == delta_value(
            be_value(old_scalar@) % field_order(),
            be_value(new_scalar@) % field_order(),
        ),
{
    if index >= MAX_WIDTH {
        return Err(CommitError::IndexOutOfRange);
    }
    let old = Scalar::from_be_bytes_mod_order(old_scalar);
    let new = Scalar::from_be_bytes_mod_order(new_scalar);
    Ok(new.sub(&old))
}

/// Shifting the coefficients of the commitment to `v` at position `i` by the
/// delta from `v[i]` to `s` gives the coefficients of the commitment to `v`
/// with `s` at position `i`.
pub proof fn lemma_update_coefficients(v: Seq<nat>, i: int, s: nat)
    requires
        v.len() <= 256,
        0 <= i < v.len(),
        canonical(v),
        s < field_order(),
    ensures
        shifted(coefficients(v), i, delta_value(v[i], s)) == coefficients(v.update(i, s)),
{
    let r = field_order();
    let d = delta_value(v[i], s);
    assert((v[i] + d) % r == s);
    assert(shifted(coefficients(v), i, d) =~= coefficients(v.update(i, s)));
}

/// Two shifts give the same coefficients in either order, at the same
/// position or at different ones.
pub proof fn lemma_shifts_commute(c: Seq<nat>, i: int, j: int, d1: nat, d2: nat)
    requires
        0 <= i < c.len(),
        0 <= j < c.len(),
    ensures
        shifted(shifted(c, i, d1), j, d2) == shifted(shifted(c, j, d2), i, d1),
{
    let r = field_order();
    if i == j {
        assert(((c[i] + d1) % r + d2) % r == ((c[i] + d2) % r + d1) % r);
    }
    assert(shifted(shifted(c, i, d1), j, d2) =~= shifted(shifted(c, j, d2), i, d1));
}

/// The vector after each write `(position, value)` is applied in order.
pub open spec fn apply_writes(v: Seq<nat>, writes: Seq<(int, nat)>) -> Seq<nat>
    decreases writes.len(),
{
    if writes.len() == 0 {
        v
    } else {
        apply_writes(v, writes.drop_last()).update(writes.last().0, writes.last().1)
    }
}

/// The coefficients reached from the commitment to `v` by one update per
/// write, each taking as its old value what the position holds just before.
pub open spec fn apply_updates(v: Seq<nat>, writes: Seq<(int, nat)>) -> Seq<nat>
    decreases writes.len(),
{
    if writes.len() == 0 {
        coefficients(v)
    } else {
        let before = apply_writes(v, writes.drop_last());
        let (i, s) = writes.last();
        shifted(apply_updates(v, writes.drop_last()), i, delta_value(before[i], s))
    }
}

/// Whether every write names a position of `v` and a canonical value.
pub open spec fn valid_writes(v: Seq<nat>, writes: Seq<(int, nat)>) -> bool {
    forall|k: int|
        0 <= k < writes.len() ==> 0 <= #[trigger] writes[k].0 < v.len() && writes[k].1
            < field_order()
}

/// Any sequence of updates, repeated positions included, gives the
/// coefficients of the commitment to the vector with all the writes applied.
pub proof fn lemma_update_coefficients_compose(v: Seq<nat>, writes: Seq<(int, nat)>)
    requires
        v.len() <= 256,
        canonical(v),
        valid_writes(v, writes),
    ensures
        apply_updates(v, writes) == coefficients(apply_writes(v, writes)),
        apply_writes(v, writes).len() == v.len(),
        canonical(apply_writes(v, writes)),
    decreases writes.len(),
{
    if writes.len() > 0 {
        let rest = writes.drop_last();
        assert(valid_writes(v, rest)) by {
            assert forall|k: int| 0 <= k < rest.len() implies 0 <= #[trigger] rest[k].0 < v.len()
                && rest[k].1 < field_order() by {
                assert(rest[k] == writes[k]);
            }
        }
        lemma_update_coefficients_compose(v, rest);
        let before = apply_writes(v, rest);
        let (i, s) = writes.last();
        assert(writes[writes.len() - 1] == writes.last());
        lemma_update_coefficients(before, i, s);
    }
}

} // verus!
