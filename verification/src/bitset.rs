//! Bit sets of a fixed length, kept in `bit_vec::BitVec`.
//!
//! The bit vector itself is not verified here. Its contents are named by
//! [`bits`], and each function below states what one method of `BitVec`
//! does to them.

use crate::model::population;
use crate::proofs::lemma_population_bound;
use bit_vec::BitVec;
use vstd::prelude::*;

verus! {

#[verifier::external_type_specification]
#[verifier::external_body]
#[verifier::reject_recursive_types(B)]
pub struct ExBitVec<B>(BitVec<B>);

/// The bits that a bit vector holds, from index 0 upwards.
pub uninterp spec fn bits(v: BitVec) -> Seq<bool>;

/// `BitVec::from_elem`: a vector of `len` bits, each equal to `bit`.
#[verifier::external_body]
pub(crate) fn bitvec_from_elem(len: usize, bit: bool) -> (r: BitVec)
    ensures
        bits(r) == Seq::new(len as nat, |i: int| bit),
{
    BitVec::from_elem(len, bit)
}

/// `BitVec::clone`: a vector with the same bits.
#[verifier::external_body]
pub(crate) fn bitvec_clone(v: &BitVec) -> (r: BitVec)
    ensures
        bits(r) == bits(*v),
{
    v.clone()
}

/// `BitVec::len`: the number of bits.
#[verifier::external_body]
pub(crate) fn bitvec_len(v: &BitVec) -> (r: usize)
    ensures
        r == bits(*v).len(),
{
    v.len()
}

/// `BitVec::get`: the bit at index `i`, or `None` past the end.
#[verifier::external_body]
pub(crate) fn bitvec_get(v: &BitVec, i: usize) -> (r: Option<bool>)
    ensures
        r == if i < bits(*v).len() {
            Some(bits(*v)[i as int])
        } else {
            None
        },
{
    v.get(i)
}

/// `BitVec::set`: the bit at index `i` becomes `x`, the others stay. The
/// method panics for an index past the end, which `requires` leaves out.
#[verifier::external_body]
pub(crate) fn bitvec_set(v: &mut BitVec, i: usize, x: bool)
    requires
        i < bits(*old(v)).len(),
    ensures
        bits(*final(v)) == bits(*old(v)).update(i as int, x),
{
    v.set(i, x)
}

/// `BitVec::set_all`: every bit becomes 1.
#[verifier::external_body]
pub(crate) fn bitvec_set_all(v: &mut BitVec)
    ensures
        bits(*final(v)) == Seq::new(bits(*old(v)).len(), |i: int| true),
{
    v.set_all()
}

/// `BitVec::negate`: every bit is flipped.
#[verifier::external_body]
pub(crate) fn bitvec_negate(v: &mut BitVec)
    ensures
        bits(*final(v)) == Seq::new(bits(*old(v)).len(), |i: int| !bits(*old(v))[i]),
{
    v.negate()
}

/// `BitVec::and`: each bit of `v` becomes its conjunction with the bit of
/// `other` at the same index; the result tells whether `v` changed. The
/// method panics for vectors of different lengths, which `requires` leaves
/// out.
#[verifier::external_body]
pub(crate) fn bitvec_and(v: &mut BitVec, other: &BitVec) -> (changed: bool)
    requires
        bits(*old(v)).len() == bits(*other).len(),
    ensures
        bits(*final(v)) == Seq::new(
            bits(*old(v)).len(),
            |i: int| bits(*old(v))[i] && bits(*other)[i],
        ),
        changed == (bits(*final(v)) != bits(*old(v))),
{
    v.and(other)
}

/// `BitVec::none`: whether every bit is 0.
#[verifier::external_body]
pub(crate) fn bitvec_none(v: &BitVec) -> (r: bool)
    ensures
        r == (forall|i: int| 0 <= i < bits(*v).len() ==> !bits(*v)[i]),
{
    v.none()
}

/// The number of set bits.
pub fn count_ones(v: &BitVec) -> (count: usize)
    ensures
        count == population(bits(*v)),
{
    let len = bitvec_len(v);
    let mut count: usize = 0;
    let mut i: usize = 0;
    while i < len
        invariant
            len == bits(*v).len(),
            i <= len,
            count == population(bits(*v).take(i as int)),
            count <= i,
        decreases len - i,
    {
        proof {
            assert(bits(*v).take(i + 1).drop_last() == bits(*v).take(i as int));
            lemma_population_bound(bits(*v).take(i as int));
        }
        match bitvec_get(v, i) {
            Some(true) => {
                count = count + 1;
            },
            _ => {},
        }
        i = i + 1;
    }
    assert(bits(*v).take(len as int) == bits(*v));
    count
}

} // verus!
