//! Integers encoded as bytes, and elements of the banderwagon scalar field.

use vstd::arithmetic::div_mod::{
    lemma_mod_add_multiples_vanish, lemma_mod_sub_multiples_vanish, lemma_small_mod,
};
use vstd::prelude::*;

verus! {

/// `256` raised to the power `n`.
pub open spec fn pow256(n: nat) -> nat
    decreases n,
{
    if n == 0 {
        1
    } else {
        256 * pow256((n - 1) as nat)
    }
}

/// The integer that `s` encodes, least significant byte first.
pub open spec fn le_value(s: Seq<u8>) -> nat
    decreases s.len(),
{
    if s.len() == 0 {
        0
    } else {
        le_value(s.drop_last()) + pow256((s.len() - 1) as nat) * (s.last() as nat)
    }
}

/// The integer that `s` encodes, most significant byte first.
pub open spec fn be_value(s: Seq<u8>) -> nat {
    le_value(s.reverse())
}

proof fn lemma_pow256_positive(n: nat)
    ensures
        pow256(n) > 0,
    decreases n,
{
    if n > 0 {
        lemma_pow256_positive((n - 1) as nat);
    }
}

/// A byte string of length `n` encodes an integer below `256^n`.
pub proof fn lemma_le_value_bound(s: Seq<u8>)
    ensures
        le_value(s) < pow256(s.len()),
    decreases s.len(),
{
    if s.len() > 0 {
        let n = (s.len() - 1) as nat;
        lemma_le_value_bound(s.drop_last());
        lemma_pow256_positive(n);
        let p = pow256(n);
        let lo = le_value(s.drop_last());
        let top = s.last();
        assert(lo + p * top < 256 * p) by (nonlinear_arith)
            requires
                lo < p,
                top < 256,
        ;
    }
}

proof fn lemma_pow256_add(a: nat, b: nat)
    ensures
        pow256(a + b) == pow256(a) * pow256(b),
    decreases b,
{
    if b == 0 {
        assert(pow256(0) == 1);
        assert(a + b == a);
    } else {
        lemma_pow256_add(a, (b - 1) as nat);
        assert((a + b - 1) as nat == a + (b - 1) as nat);
        assert(pow256(a + b) == 256 * pow256((a + b - 1) as nat));
        assert(pow256(b) == 256 * pow256((b - 1) as nat));
        let pa = pow256(a);
        let pb = pow256((b - 1) as nat);
        assert(256 * (pa * pb) == pa * (256 * pb)) by (nonlinear_arith);
    }
}

/// The integer an encoding holds splits at any byte into the part below
/// and the part above: `le_value(s) == low + 256^k * high`.
pub proof fn lemma_le_value_split(s: Seq<u8>, k: int)
    requires
        0 <= k <= s.len(),
    ensures
        le_value(s) == le_value(s.take(k)) + pow256(k as nat) * le_value(s.skip(k)),
    decreases s.len(),
{
    if s.len() == k {
        assert(s.take(k) =~= s);
        assert(s.skip(k) =~= Seq::<u8>::empty());
        assert(le_value(s.skip(k)) == 0);
        assert(pow256(k as nat) * 0 == 0);
    } else {
        let n = (s.len() - 1) as nat;
        let dl = s.drop_last();
        lemma_le_value_split(dl, k);
        assert(dl.take(k) =~= s.take(k));
        assert(s.skip(k).drop_last() =~= dl.skip(k));
        assert(s.skip(k).last() == s.last());
        lemma_pow256_add(k as nat, (n - k) as nat);
        assert(k as nat + (n - k) as nat == n);
        let pk = pow256(k as nat);
        let pr = pow256((n - k) as nat);
        assert(pow256(n) == pk * pr);
        assert(le_value(s.skip(k)) == le_value(dl.skip(k)) + pr * (s.last() as nat));
        let hi = le_value(dl.skip(k));
        let top = s.last() as nat;
        assert(pk * (hi + pr * top) == pk * hi + (pk * pr) * top) by (nonlinear_arith);
    }
}

/// Reading one more byte of a prefix adds that byte at its weight.
proof fn lemma_le_value_take_step(s: Seq<u8>, i: int)
    requires
        0 <= i < s.len(),
    ensures
        le_value(s.take(i + 1)) == le_value(s.take(i)) + pow256(i as nat) * s[i],
{
    assert(s.take(i + 1).drop_last() =~= s.take(i));
}

/// `a - b` on 32-byte little-endian integers, with the borrow out of the top byte.
fn sub_with_borrow(a: &[u8; 32], b: &[u8; 32]) -> (r: ([u8; 32], bool))
    ensures
        le_value(r.0@) + le_value(b@) == le_value(a@) + (if r.1 { pow256(32) } else { 0 }),
        r.1 <==> le_value(a@) < le_value(b@),
{
    let mut out = [0u8; 32];
    let mut borrow: u8 = 0;
    let mut i: usize = 0;
    while i < 32
        invariant
            0 <= i <= 32,
            borrow <= 1,
            le_value(out@.take(i as int)) + le_value(b@.take(i as int)) == le_value(a@.take(i as int))
                + borrow * pow256(i as nat),
        decreases 32 - i,
    {
        let ai: i16 = a[i] as i16;
        let bi: i16 = b[i] as i16 + borrow as i16;
        let d: i16 = ai - bi;
        let ghost before = out@;
        let next: u8;
        if d < 0 {
            out[i] = (d + 256) as u8;
            next = 1;
        } else {
            out[i] = d as u8;
            next = 0;
        }
        proof {
            let ii = i as int;
            assert(out@.take(ii) =~= before.take(ii));
            assert(pow256((i + 1) as nat) == 256 * pow256(i as nat));
            lemma_le_value_take_step(a@, ii);
            lemma_le_value_take_step(b@, ii);
            lemma_le_value_take_step(out@, ii);
            let p = pow256(i as nat);
            assert(out[ii] + bi == ai + 256 * next);
            assert(p * out[ii] + p * b[ii] + p * borrow == p * a[ii] + pow256((i + 1) as nat) * next)
                by (nonlinear_arith)
                requires
                    out[ii] + b[ii] + borrow == a[ii] + 256 * next,
                    pow256((i + 1) as nat) == 256 * p,
            ;
            assert(borrow * p == p * borrow) by (nonlinear_arith);
            assert(next * pow256((i + 1) as nat) == pow256((i + 1) as nat) * next)
                by (nonlinear_arith);
        }
        borrow = next;
        i = i + 1;
    }
    proof {
        assert(out@.take(32) =~= out@);
        assert(a@.take(32) =~= a@);
        assert(b@.take(32) =~= b@);
        lemma_le_value_bound(out@);
    }
    (out, borrow == 1)
}

/// The order of the banderwagon scalar field, a prime of 253 bits.
pub open spec fn field_order() -> nat {
    0x1cfb69d4ca675f520cce760202687600ff8f87007419047174fd06b52876e7e1nat
}

/// The field order, least significant byte first.
fn field_order_le() -> (r: [u8; 32])
    ensures
        le_value(r@) == field_order(),
{
    let r: [u8; 32] = [
        0xe1, 0xe7, 0x76, 0x28, 0xb5, 0x06, 0xfd, 0x74, 0x71, 0x04, 0x19, 0x74, 0x00, 0x87, 0x8f,
        0xff, 0x00, 0x76, 0x68, 0x02, 0x02, 0x76, 0xce, 0x0c, 0x52, 0x5f, 0x67, 0xca, 0xd4, 0x69,
        0xfb, 0x1c,
    ];
    proof {
        assert(r@.take(0) =~= Seq::<u8>::empty());
        assert(pow256(0) == 1);
        assert(pow256(1) == 0x100nat);
        assert(pow256(2) == 0x10000nat);
        assert(pow256(3) == 0x1000000nat);
        assert(pow256(4) == 0x100000000nat);
        assert(pow256(5) == 0x10000000000nat);
        assert(pow256(6) == 0x1000000000000nat);
        assert(pow256(7) == 0x100000000000000nat);
        assert(pow256(8) == 0x10000000000000000nat);
        assert(pow256(9) == 0x1000000000000000000nat);
        assert(pow256(10) == 0x100000000000000000000nat);
        assert(pow256(11) == 0x10000000000000000000000nat);
        assert(pow256(12) == 0x1000000000000000000000000nat);
        assert(pow256(13) == 0x100000000000000000000000000nat);
        assert(pow256(14) == 0x10000000000000000000000000000nat);
        assert(pow256(15) == 0x1000000000000000000000000000000nat);
        assert(pow256(16) == 0x100000000000000000000000000000000nat);
        assert(pow256(17) == 0x10000000000000000000000000000000000nat);
        assert(pow256(18) == 0x1000000000000000000000000000000000000nat);
        assert(pow256(19) == 0x100000000000000000000000000000000000000nat);
        assert(pow256(20) == 0x10000000000000000000000000000000000000000nat);
        assert(pow256(21) == 0x1000000000000000000000000000000000000000000nat);
        assert(pow256(22) == 0x100000000000000000000000000000000000000000000nat);
        assert(pow256(23) == 0x10000000000000000000000000000000000000000000000nat);
        assert(pow256(24) == 0x1000000000000000000000000000000000000000000000000nat);
        assert(pow256(25) == 0x100000000000000000000000000000000000000000000000000nat);
        assert(pow256(26) == 0x10000000000000000000000000000000000000000000000000000nat);
        assert(pow256(27) == 0x1000000000000000000000000000000000000000000000000000000nat);
        assert(pow256(28) == 0x100000000000000000000000000000000000000000000000000000000nat);
        assert(pow256(29) == 0x10000000000000000000000000000000000000000000000000000000000nat);
        assert(pow256(30) == 0x1000000000000000000000000000000000000000000000000000000000000nat);
        assert(pow256(31) == 0x100000000000000000000000000000000000000000000000000000000000000nat);
        assert(pow256(32) == 0x10000000000000000000000000000000000000000000000000000000000000000nat);
        lemma_le_value_take_step(r@, 0);
        assert(le_value(r@.take(1)) == 0xe1nat);
        lemma_le_value_take_step(r@, 1);
        assert(le_value(r@.take(2)) == 0xe7e1nat);
        lemma_le_value_take_step(r@, 2);
        assert(le_value(r@.take(3)) == 0x76e7e1nat);
        lemma_le_value_take_step(r@, 3);
        assert(le_value(r@.take(4)) == 0x2876e7e1nat);
        lemma_le_value_take_step(r@, 4);
        assert(le_value(r@.take(5)) == 0xb52876e7e1nat);
        lemma_le_value_take_step(r@, 5);
        assert(le_value(r@.take(6)) == 0x6b52876e7e1nat);
        lemma_le_value_take_step(r@, 6);
        assert(le_value(r@.take(7)) == 0xfd06b52876e7e1nat);
        lemma_le_value_take_step(r@, 7);
        assert(le_value(r@.take(8)) == 0x74fd06b52876e7e1nat);
        lemma_le_value_take_step(r@, 8);
        assert(le_value(r@.take(9)) == 0x7174fd06b52876e7e1nat);
        lemma_le_value_take_step(r@, 9);
        assert(le_value(r@.take(10)) == 0x47174fd06b52876e7e1nat);
        lemma_le_value_take_step(r@, 10);
        assert(le_value(r@.take(11)) == 0x19047174fd06b52876e7e1nat);
        lemma_le_value_take_step(r@, 11);
        assert(le_value(r@.take(12)) == 0x7419047174fd06b52876e7e1nat);
        lemma_le_value_take_step(r@, 12);
        assert(le_value(r@.take(13)) == 0x7419047174fd06b52876e7e1nat);
        lemma_le_value_take_step(r@, 13);
        assert(le_value(r@.take(14)) == 0x87007419047174fd06b52876e7e1nat);
        lemma_le_value_take_step(r@, 14);
        assert(le_value(r@.take(15)) == 0x8f87007419047174fd06b52876e7e1nat);
        lemma_le_value_take_step(r@, 15);
        assert(le_value(r@.take(16)) == 0xff8f87007419047174fd06b52876e7e1nat);
        lemma_le_value_take_step(r@, 16);
        assert(le_value(r@.take(17)) == 0xff8f87007419047174fd06b52876e7e1nat);
        lemma_le_value_take_step(r@, 17);
        assert(le_value(r@.take(18)) == 0x7600ff8f87007419047174fd06b52876e7e1nat);
        lemma_le_value_take_step(r@, 18);
        assert(le_value(r@.take(19)) == 0x687600ff8f87007419047174fd06b52876e7e1nat);
        lemma_le_value_take_step(r@, 19);
        assert(le_value(r@.take(20)) == 0x2687600ff8f87007419047174fd06b52876e7e1nat);
        lemma_le_value_take_step(r@, 20);
        assert(le_value(r@.take(21)) == 0x202687600ff8f87007419047174fd06b52876e7e1nat);
        lemma_le_value_take_step(r@, 21);
        assert(le_value(r@.take(22)) == 0x760202687600ff8f87007419047174fd06b52876e7e1nat);
        lemma_le_value_take_step(r@, 22);
        assert(le_value(r@.take(23)) == 0xce760202687600ff8f87007419047174fd06b52876e7e1nat);
        lemma_le_value_take_step(r@, 23);
        assert(le_value(r@.take(24)) == 0xcce760202687600ff8f87007419047174fd06b52876e7e1nat);
        lemma_le_value_take_step(r@, 24);
        assert(le_value(r@.take(25)) == 0x520cce760202687600ff8f87007419047174fd06b52876e7e1nat);
        lemma_le_value_take_step(r@, 25);
        assert(le_value(r@.take(26)) == 0x5f520cce760202687600ff8f87007419047174fd06b52876e7e1nat);
        lemma_le_value_take_step(r@, 26);
        assert(le_value(r@.take(27)) == 0x675f520cce760202687600ff8f87007419047174fd06b52876e7e1nat);
        lemma_le_value_take_step(r@, 27);
        assert(le_value(r@.take(28)) == 0xca675f520cce760202687600ff8f87007419047174fd06b52876e7e1nat);
        lemma_le_value_take_step(r@, 28);
        assert(le_value(r@.take(29)) == 0xd4ca675f520cce760202687600ff8f87007419047174fd06b52876e7e1nat);
        lemma_le_value_take_step(r@, 29);
        assert(le_value(r@.take(30)) == 0x69d4ca675f520cce760202687600ff8f87007419047174fd06b52876e7e1nat);
        lemma_le_value_take_step(r@, 30);
        assert(le_value(r@.take(31)) == 0xfb69d4ca675f520cce760202687600ff8f87007419047174fd06b52876e7e1nat);
        lemma_le_value_take_step(r@, 31);
        assert(le_value(r@.take(32)) == 0x1cfb69d4ca675f520cce760202687600ff8f87007419047174fd06b52876e7e1nat);
        assert(r@.take(32) =~= r@);
    }
    r
}

/// Zero bytes past the end of an encoding do not change the integer it encodes.
proof fn lemma_le_value_zero_padded(padded: Seq<u8>, s: Seq<u8>)
    requires
        s.len() <= padded.len(),
        forall|j: int| 0 <= j < s.len() ==> padded[j] == s[j],
        forall|j: int| s.len() <= j < padded.len() ==> padded[j] == 0,
    ensures
        le_value(padded) == le_value(s),
    decreases padded.len(),
{
    if padded.len() == s.len() {
        assert(padded =~= s);
    } else {
        lemma_le_value_zero_padded(padded.drop_last(), s);
    }
}

/// An encoding is zero exactly when all its bytes are.
pub proof fn lemma_le_value_zero(s: Seq<u8>)
    ensures
        le_value(s) == 0 <==> forall|j: int| 0 <= j < s.len() ==> s[j] == 0,
    decreases s.len(),
{
    if s.len() > 0 {
        let n = (s.len() - 1) as nat;
        lemma_le_value_zero(s.drop_last());
        lemma_pow256_positive(n);
        let p = pow256(n);
        let top = s.last() as nat;
        assert(p * top == 0 <==> top == 0) by (nonlinear_arith)
            requires
                p > 0,
        ;
        if le_value(s) == 0 {
            assert forall|j: int| 0 <= j < s.len() implies s[j] == 0 by {
                if j < n {
                    assert(s.drop_last()[j] == s[j]);
                }
            }
        }
        if forall|j: int| 0 <= j < s.len() ==> s[j] == 0 {
            assert forall|j: int| 0 <= j < s.drop_last().len() implies s.drop_last()[j] == 0 by {
                assert(s[j] == 0);
            }
        }
    }
}

/// An element of the banderwagon scalar field, held as its canonical
/// encoding, least significant byte first.
#[derive(Debug, Clone, Copy)]
pub struct Scalar {
    le: [u8; 32],
}

impl View for Scalar {
    type V = nat;

    /// The field element as an integer in `0 .. field_order()`.
    closed spec fn view(&self) -> nat {
        le_value(self.le@)
    }
}

impl Scalar {
    #[verifier::type_invariant]
    spec fn canonical(&self) -> bool {
        le_value(self.le@) < field_order()
    }

    /// Reduces a 32-byte little-endian integer modulo the field order.
    fn reduce(bytes: [u8; 32]) -> (r: Scalar)
        ensures
            r@ == le_value(bytes@) % field_order(),
    {
        let m = field_order_le();
        let mut cur = bytes;
        let (mut diff, mut below) = sub_with_borrow(&cur, &m);
        while !below
            invariant
                le_value(m@) == field_order(),
                le_value(cur@) % field_order() == le_value(bytes@) % field_order(),
                le_value(diff@) + le_value(m@) == le_value(cur@) + (if below { pow256(32) } else { 0 }),
                below <==> le_value(cur@) < le_value(m@),
            decreases le_value(cur@),
        {
            proof {
                lemma_mod_sub_multiples_vanish(le_value(cur@) as int, field_order() as int);
            }
            cur = diff;
            let (d, b) = sub_with_borrow(&cur, &m);
            diff = d;
            below = b;
        }
        proof {
            lemma_small_mod(le_value(cur@), field_order());
        }
        Scalar { le: cur }
    }

    /// The field element zero.
    pub fn zero() -> (r: Scalar)
        ensures
            r@ == 0,
    {
        let le = [0u8; 32];
        proof {
            lemma_le_value_zero(le@);
        }
        Scalar { le }
    }

    /// The field element that `v` stands for.
    pub fn from_u64(v: u64) -> (r: Scalar)
        ensures
            r@ == v,
    {
        let mut le = [0u8; 32];
        let mut rest: u64 = v;
        let mut i: usize = 0;
        proof {
            assert(le@.take(0) =~= Seq::<u8>::empty());
            assert(pow256(0) == 1);
        }
        while i < 8
            invariant
                0 <= i <= 8,
                le_value(le@.take(i as int)) + pow256(i as nat) * rest == v,
                forall|j: int| i <= j < 32 ==> le@[j] == 0,
            decreases 8 - i,
        {
            let ghost before = le@;
            le[i] = (rest % 256) as u8;
            proof {
                let ii = i as int;
                let p = pow256(i as nat);
                assert(le@.take(ii) =~= before.take(ii));
                assert(pow256((i + 1) as nat) == 256 * p);
                lemma_le_value_take_step(le@, ii);
                assert(p * (rest % 256) + pow256((i + 1) as nat) * (rest / 256) == p * rest)
                    by (nonlinear_arith)
                    requires
                        pow256((i + 1) as nat) == 256 * p,
                        rest == 256 * (rest / 256) + rest % 256,
                ;
            }
            rest = rest / 256;
            i = i + 1;
        }
        proof {
            assert(pow256(0) == 1);
            assert(pow256(1) == 0x100);
            assert(pow256(2) == 0x10000);
            assert(pow256(3) == 0x1000000);
            assert(pow256(4) == 0x100000000);
            assert(pow256(5) == 0x10000000000);
            assert(pow256(6) == 0x1000000000000);
            assert(pow256(7) == 0x100000000000000);
            assert(pow256(8) == 0x10000000000000000);
            assert(i == 8);
            assert(le_value(le@.take(8)) + 0x10000000000000000 * rest == v);
            assert(rest == 0) by (nonlinear_arith)
                requires
                    le_value(le@.take(8)) + 0x10000000000000000 * rest == v,
                    v < 0x10000000000000000,
            ;
            lemma_le_value_zero_padded(le@, le@.take(8));
            assert(le_value(le@) == v);
            lemma_small_mod(v as nat, field_order());
        }
        Scalar::reduce(le)
    }

    /// Reads `count` bytes of `bytes` from `start`, least significant first,
    /// and reduces the integer they encode modulo the field order.
    pub(crate) fn from_le_range(bytes: &[u8], start: usize, count: usize) -> (r: Scalar)
        requires
            start + count <= bytes@.len(),
            count <= 32,
        ensures
            r@ == le_value(bytes@.subrange(start as int, start + count)) % field_order(),
    {
        let ghost src = bytes@.subrange(start as int, start + count);
        let mut le = [0u8; 32];
        let n = bytes.len();
        let mut i: usize = 0;
        while i < count
            invariant
                n == bytes@.len(),
                start + count <= bytes@.len(),
                count <= 32,
                src == bytes@.subrange(start as int, start + count),
                0 <= i <= count,
                forall|j: int| 0 <= j < i ==> le@[j] == src[j],
                forall|j: int| i <= j < 32 ==> le@[j] == 0,
            decreases count - i,
        {
            le[i] = bytes[start + i];
            i = i + 1;
        }
        proof {
            lemma_le_value_zero_padded(le@, src);
        }
        Scalar::reduce(le)
    }

    /// Reads `count` bytes of `bytes` from `start`, most significant first,
    /// and reduces the integer they encode modulo the field order.
    pub(crate) fn from_be_range(bytes: &[u8], start: usize, count: usize) -> (r: Scalar)
        requires
            start + count <= bytes@.len(),
            count <= 32,
        ensures
            r@ == be_value(bytes@.subrange(start as int, start + count)) % field_order(),
    {
        let ghost src = bytes@.subrange(start as int, start + count).reverse();
        let mut le = [0u8; 32];
        let n = bytes.len();
        let mut i: usize = 0;
        while i < count
            invariant
                n == bytes@.len(),
                start + count <= bytes@.len(),
                count <= 32,
                src == bytes@.subrange(start as int, start + count).reverse(),
                0 <= i <= count,
                forall|j: int| 0 <= j < i ==> le@[j] == src[j],
                forall|j: int| i <= j < 32 ==> le@[j] == 0,
            decreases count - i,
        {
            le[i] = bytes[start + count - 1 - i];
            i = i + 1;
        }
        proof {
            lemma_le_value_zero_padded(le@, src);
        }
        Scalar::reduce(le)
    }

    /// Reads 32 bytes, least significant first, modulo the field order.
    pub fn from_le_bytes_mod_order(bytes: &[u8; 32]) -> (r: Scalar)
        ensures
            r@ == le_value(bytes@) % field_order(),
    {
        proof {
            assert(bytes@.subrange(0, 32) =~= bytes@);
        }
        Scalar::from_le_range(bytes, 0, 32)
    }

    /// Reads 32 bytes, most significant first, modulo the field order.
    pub fn from_be_bytes_mod_order(bytes: &[u8; 32]) -> (r: Scalar)
        ensures
            r@ == be_value(bytes@) % field_order(),
    {
        proof {
            assert(bytes@.subrange(0, 32) =~= bytes@);
        }
        Scalar::from_be_range(bytes, 0, 32)
    }

    /// The canonical encoding, least significant byte first.
    pub fn to_le_bytes(&self) -> (r: [u8; 32])
        ensures
            le_value(r@) == self@,
    {
        self.le
    }

    /// The canonical encoding, most significant byte first.
    pub fn to_be_bytes(&self) -> (r: [u8; 32])
        ensures
            be_value(r@) == self@,
    {
        let mut out = [0u8; 32];
        let mut i: usize = 0;
        while i < 32
            invariant
                0 <= i <= 32,
                forall|j: int| 0 <= j < i ==> out@[j] == self.le@[31 - j],
            decreases 32 - i,
        {
            out[i] = self.le[31 - i];
            i = i + 1;
        }
        proof {
            assert(out@.reverse() =~= self.le@);
        }
        out
    }

    /// Whether this is the field element zero.
    pub fn is_zero(&self) -> (r: bool)
        ensures
            r <==> self@ == 0,
    {
        let mut i: usize = 0;
        while i < 32
            invariant
                0 <= i <= 32,
                forall|j: int| 0 <= j < i ==> self.le@[j] == 0,
            decreases 32 - i,
        {
            if self.le[i] != 0 {
                proof {
                    lemma_le_value_zero(self.le@);
                }
                return false;
            }
            i = i + 1;
        }
        proof {
            lemma_le_value_zero(self.le@);
        }
        true
    }

    /// Whether two scalars are the same field element.
    pub fn equals(&self, other: &Scalar) -> (r: bool)
        ensures
            r <==> self@ == other@,
    {
        let (_, below) = sub_with_borrow(&self.le, &other.le);
        let (_, above) = sub_with_borrow(&other.le, &self.le);
        !below && !above
    }

    /// The difference `self - other` in the field.
    pub fn sub(&self, other: &Scalar) -> (r: Scalar)
        ensures
            r@ == (self@ - other@) % (field_order() as int),
    {
        proof {
            use_type_invariant(self);
            use_type_invariant(other);
        }
        let (diff, below) = sub_with_borrow(&self.le, &other.le);
        if !below {
            proof {
                lemma_small_mod(le_value(diff@), field_order());
            }
            Scalar { le: diff }
        } else {
            let m = field_order_le();
            let (gap, _) = sub_with_borrow(&other.le, &self.le);
            let (wrapped, _) = sub_with_borrow(&m, &gap);
            proof {
                let d = self@ - other@;
                lemma_mod_add_multiples_vanish(d, field_order() as int);
                lemma_small_mod((field_order() + d) as nat, field_order());
            }
            Scalar { le: wrapped }
        }
    }
}

} // verus!
