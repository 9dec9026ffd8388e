//! Trusted surface over the outside `bit_vec` crate, whose `BitVec`
//! carries the packed bit sequence the coder emits and consumes, and
//! over `String::push`.

use vstd::prelude::*;

verus! {

#[verifier::external_type_specification]
#[verifier::external_body]
#[verifier::reject_recursive_types(B)]
pub struct ExBitVec<B>(bit_vec::BitVec<B>);

/// The bits a `BitVec` holds, first-pushed first.
pub uninterp spec fn bits_of(b: bit_vec::BitVec) -> Seq<bool>;

/// Relies on `bit_vec::BitVec::new`: it creates an empty bit vector.
#[verifier::external_body]
pub(crate) fn bv_new() -> (r: bit_vec::BitVec)
    ensures
        bits_of(r) == Seq::<bool>::empty(),
{
    bit_vec::BitVec::new()
}

/// Relies on `bit_vec::BitVec::push`: it appends one bit at the end.
/// A full vector is left out: there `push` aborts on capacity overflow.
#[verifier::external_body]
pub(crate) fn bv_push(b: &mut bit_vec::BitVec, bit: bool)
    requires
        bits_of(*old(b)).len() < usize::MAX,
    ensures
        bits_of(*final(b)) == bits_of(*old(b)).push(bit),
{
    b.push(bit)
}

/// Relies on `bit_vec::BitVec::len`: it returns the number of bits held.
#[verifier::external_body]
pub(crate) fn bv_len(b: &bit_vec::BitVec) -> (r: usize)
    ensures
        r == bits_of(*b).len(),
{
    b.len()
}

/// Relies on `bit_vec::BitVec::get`: it returns the bit at an index,
/// and `None` beyond the end.
#[verifier::external_body]
pub(crate) fn bv_get(b: &bit_vec::BitVec, i: usize) -> (r: Option<bool>)
    ensures
        r == if i < bits_of(*b).len() {
            Some(bits_of(*b)[i as int])
        } else {
            None::<bool>
        },
{
    b.get(i)
}

/// Relies on `String::push`: it appends one character at the end.
#[verifier::external_body]
pub(crate) fn string_push(s: &mut String, c: char)
    ensures
        final(s)@ == old(s)@.push(c),
{
    s.push(c)
}

} // verus!
