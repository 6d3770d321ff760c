//! Grids of GPU threads.

use vstd::arithmetic::div_mod::*;
use vstd::arithmetic::mul::*;
use vstd::prelude::*;

verus! {

/// The extent of a grid of threads or thread groups.
#[derive(Clone, Copy, Debug, PartialEq, Eq, Structural)]
pub struct MTLSize {
    pub width: u64,
    pub height: u64,
    pub depth: u64,
}

impl MTLSize {
    /// A grid of one row.
    pub open spec fn spec_line(width: int) -> MTLSize {
        MTLSize { width: width as u64, height: 1, depth: 1 }
    }

    /// A grid of one row.
    pub fn line(width: usize) -> (r: MTLSize)
        ensures
            r == Self::spec_line(width as int),
            r.width == width,
            r.height == 1,
            r.depth == 1,
    {
        MTLSize { width: width as u64, height: 1, depth: 1 }
    }

    /// A grid of one layer.
    pub open spec fn spec_plane(width: int, height: int) -> MTLSize {
        MTLSize { width: width as u64, height: height as u64, depth: 1 }
    }

    /// A grid of one layer.
    pub fn plane(width: usize, height: usize) -> (r: MTLSize)
        ensures
            r == Self::spec_plane(width as int, height as int),
            r.width == width,
            r.height == height,
            r.depth == 1,
    {
        MTLSize { width: width as u64, height: height as u64, depth: 1 }
    }
}

/// How many groups of `width` threads it takes to cover `count` threads.
pub open spec fn groups_for(count: int, width: int) -> int {
    (count + width - 1) / width
}

/// How many groups of `width` threads it takes to cover `count` threads.
pub fn group_count(count: usize, width: usize) -> (r: usize)
    requires
        width > 0,
        count + width - 1 <= usize::MAX,
    ensures
        r == groups_for(count as int, width as int),
        r * width >= count,
        r > 0 ==> (r - 1) * width < count,
{
    proof {
        theorem_groups_cover(count as nat, width as nat);
    }
    (count + (width - 1)) / width
}

/// The groups of a launch cover every thread, and none of them is superfluous.
pub proof fn theorem_groups_cover(count: nat, width: nat)
    requires
        width > 0,
    ensures
        groups_for(count as int, width as int) * width >= count,
        groups_for(count as int, width as int) > 0 ==> (groups_for(count as int, width as int) - 1)
            * width < count,
        groups_for(count as int, width as int) >= 0,
{
    let x = count + width - 1;
    let g = groups_for(count as int, width as int);
    lemma_fundamental_div_mod(x as int, width as int);
    lemma_mod_division_less_than_divisor(x as int, width as int);
    lemma_mul_is_commutative(width as int, g);
    lemma_div_pos_is_pos(x as int, width as int);
    assert((g - 1) * width == g * width - width) by (nonlinear_arith);
}

} // verus!
