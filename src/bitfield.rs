//! Fixed-width neighbourhood bit-sets: bit `d` of the set rooted at slot `h`
//! says that slot `h + d` holds an entry whose ideal slot is `h`.
use vstd::prelude::*;

verus! {

/// Width of every neighbourhood, in slots.
pub const NEIGHBOURHOOD: usize = 32;

/// A neighbourhood bit-set of width `NEIGHBOURHOOD`.
pub type BitField = u32;

/// Whether offset `d` is set in `x`.
pub open spec fn has_bit(x: u32, d: int) -> bool {
    0 <= d < 32 && (x >> (d as u32)) & 1u32 == 1u32
}

/// The empty neighbourhood.
pub fn empty_field() -> (r: u32)
    ensures
        forall|d: int| !has_bit(r, d),
{
    proof {
        assert forall|d: int| !has_bit(0u32, d) by {
            if 0 <= d < 32 {
                let du = d as u32;
                assert((0u32 >> du) & 1u32 == 0u32) by (bit_vector);
            }
        }
    }
    0
}

/// Tests offset `d`.
pub fn test_bit(x: u32, d: usize) -> (r: bool)
    requires
        d < NEIGHBOURHOOD,
    ensures
        r == has_bit(x, d as int),
{
    (x >> (d as u32)) & 1u32 == 1u32
}

/// Sets offset `d`, keeping every other offset.
pub fn set_bit(x: u32, d: usize) -> (r: u32)
    requires
        d < NEIGHBOURHOOD,
    ensures
        forall|j: int| has_bit(r, j) == (j == d || has_bit(x, j)),
{
    let du = d as u32;
    let r = x | (1u32 << du);
    proof {
        assert forall|j: int| has_bit(r, j) == (j == d || has_bit(x, j)) by {
            if 0 <= j < 32 {
                let ju = j as u32;
                assert(du < 32 && ju < 32 ==> (((x | (1u32 << du)) >> ju) & 1u32 == 1u32) == (
                ju == du || (x >> ju) & 1u32 == 1u32)) by (bit_vector);
            }
        }
    }
    r
}

/// Clears offset `d`, keeping every other offset.
pub fn clear_bit(x: u32, d: usize) -> (r: u32)
    requires
        d < NEIGHBOURHOOD,
    ensures
        forall|j: int| has_bit(r, j) == (j != d && has_bit(x, j)),
{
    let du = d as u32;
    let r = x & !(1u32 << du);
    proof {
        assert forall|j: int| has_bit(r, j) == (j != d && has_bit(x, j)) by {
            if 0 <= j < 32 {
                let ju = j as u32;
                assert(du < 32 && ju < 32 ==> (((x & !(1u32 << du)) >> ju) & 1u32 == 1u32) == (
                ju != du && (x >> ju) & 1u32 == 1u32)) by (bit_vector);
            }
        }
    }
    r
}

} // verus!
