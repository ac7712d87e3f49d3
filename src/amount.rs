use vstd::prelude::*;

use num::bigint::BigUint;

use crate::bytes::copy_bytes;

verus! {

/// The number that a little-endian byte string stands for.
pub open spec fn le_value(s: Seq<u8>) -> nat
    decreases s.len(),
{
    if s.len() == 0 {
        0
    } else {
        s[0] as nat + 256 * le_value(s.drop_first())
    }
}

/// The canonical little-endian bytes of `n`: least significant first, no trailing zero
/// byte, and a single zero byte for zero.
pub open spec fn canonical_le(n: nat) -> Seq<u8>
    decreases n,
{
    if n < 256 {
        seq![n as u8]
    } else {
        seq![(n % 256) as u8] + canonical_le(n / 256)
    }
}

/// The canonical bytes of the sum of two little-endian numbers.
pub open spec fn biguint_sum(a: Seq<u8>, b: Seq<u8>) -> Seq<u8> {
    canonical_le(le_value(a) + le_value(b))
}

/// The canonical bytes of the difference of two little-endian numbers.
pub open spec fn biguint_difference(a: Seq<u8>, b: Seq<u8>) -> Seq<u8> {
    canonical_le((le_value(a) - le_value(b)) as nat)
}

/// Relies on num's BigUint (from_bytes_le, `+`, to_bytes_le): to_bytes_le gives the
/// canonical little-endian bytes of the sum (`[0]` for zero).
#[verifier::external_body]
fn biguint_add(a: &Vec<u8>, b: &Vec<u8>) -> (r: Vec<u8>)
    ensures
        r@ == biguint_sum(a@, b@),
        le_value(r@) == le_value(a@) + le_value(b@),
{
    (BigUint::from_bytes_le(a) + BigUint::from_bytes_le(b)).to_bytes_le()
}

/// Relies on num's BigUint (from_bytes_le, `-`, to_bytes_le): the canonical little-endian
/// bytes of the difference (`[0]` for zero); BigUint's `-` panics when `b` exceeds `a`.
#[verifier::external_body]
fn biguint_sub(a: &Vec<u8>, b: &Vec<u8>) -> (r: Vec<u8>)
    requires
        le_value(b@) <= le_value(a@),
    ensures
        r@ == biguint_difference(a@, b@),
        le_value(r@) == le_value(a@) - le_value(b@),
{
    (BigUint::from_bytes_le(a) - BigUint::from_bytes_le(b)).to_bytes_le()
}

/// Relies on num's BigUint (from_bytes_le, `<`): numeric comparison.
#[verifier::external_body]
fn biguint_less(a: &Vec<u8>, b: &Vec<u8>) -> (r: bool)
    ensures
        r == (le_value(a@) < le_value(b@)),
{
    BigUint::from_bytes_le(a) < BigUint::from_bytes_le(b)
}

/// A non-negative amount of finks of any size, held as little-endian bytes.
pub struct Amount {
    pub bytes: Vec<u8>,
}

impl View for Amount {
    type V = Seq<u8>;

    open spec fn view(&self) -> Seq<u8> {
        self.bytes@
    }
}

impl Amount {
    pub open spec fn value(&self) -> nat {
        le_value(self@)
    }

    pub fn from_le_bytes(bytes: Vec<u8>) -> (r: Amount)
        ensures
            r@ == bytes@,
    {
        Amount { bytes }
    }

    pub fn zero() -> (r: Amount)
        ensures
            r@ == seq![0u8],
            r.value() == 0,
    {
        let mut bytes: Vec<u8> = Vec::new();
        bytes.push(0u8);
        proof {
            assert(bytes@.drop_first() =~= Seq::<u8>::empty());
            assert(le_value(bytes@.drop_first()) == 0);
            assert(le_value(bytes@) == 0);
        }
        Amount { bytes }
    }

    pub fn copy(&self) -> (r: Amount)
        ensures
            r@ == self@,
    {
        Amount { bytes: copy_bytes(&self.bytes) }
    }

    pub fn add(&self, other: &Amount) -> (r: Amount)
        ensures
            r@ == biguint_sum(self@, other@),
            r.value() == self.value() + other.value(),
    {
        Amount { bytes: biguint_add(&self.bytes, &other.bytes) }
    }

    /// `self - other`, or `None` where `other` is the larger.
    pub fn checked_sub(&self, other: &Amount) -> (r: Option<Amount>)
        ensures
            r is None <==> self.value() < other.value(),
            r is Some ==> r->0@ == biguint_difference(self@, other@) && r->0.value() == self.value()
                - other.value(),
    {
        if biguint_less(&self.bytes, &other.bytes) {
            None
        } else {
            Some(Amount { bytes: biguint_sub(&self.bytes, &other.bytes) })
        }
    }

    pub fn less_than(&self, other: &Amount) -> (r: bool)
        ensures
            r == (self.value() < other.value()),
    {
        biguint_less(&self.bytes, &other.bytes)
    }
}

} // verus!
