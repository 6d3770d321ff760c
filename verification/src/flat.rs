//! Rows laid out one after another in a flat sequence.

use vstd::arithmetic::div_mod::*;
use vstd::arithmetic::mul::*;
use vstd::prelude::*;

verus! {

/// Position `row * width + column` belongs to that row and column.
pub proof fn lemma_flat_index(row: int, column: int, width: int)
    requires
        0 <= column < width,
    ensures
        (row * width + column) / width == row,
        (row * width + column) % width == column,
{
    lemma_fundamental_div_mod_converse(row * width + column, width, row, column);
}

/// A position in a flat sequence of `rows` rows has a row and a column.
pub proof fn lemma_flat_position(i: int, rows: int, width: int)
    requires
        width > 0,
        0 <= i < rows * width,
    ensures
        0 <= i / width < rows,
        0 <= i % width < width,
        i == (i / width) * width + i % width,
{
    lemma_fundamental_div_mod(i, width);
    lemma_mod_division_less_than_divisor(i, width);
    lemma_mul_is_commutative(width, i / width);
    lemma_div_pos_is_pos(i, width);
    let q = i / width;
    assert(q < rows) by (nonlinear_arith)
        requires
            i == q * width + i % width,
            i % width >= 0,
            i < rows * width,
            width > 0,
    ;
}

/// Appends the words of `source`.
pub fn append_words(target: &mut Vec<u64>, source: &Vec<u64>)
    requires
        old(target)@.len() + source@.len() <= usize::MAX,
    ensures
        final(target)@ == old(target)@ + source@,
{
    let mut i: usize = 0;
    let ghost before = target@;
    proof {
        assert(before + source@.take(0) =~= before);
    }
    while i < source.len()
        invariant
            i <= source.len(),
            target@ == before + source@.take(i as int),
        decreases source.len() - i,
    {
        target.push(source[i]);
        i = i + 1;
        proof {
            assert(target@ =~= before + source@.take(i as int));
        }
    }
    proof {
        assert(source@.take(i as int) =~= source@);
    }
}

/// The words from position `start` up to `end`.
pub fn copy_range(words: &Vec<u64>, start: usize, end: usize) -> (r: Vec<u64>)
    requires
        start <= end <= words@.len(),
    ensures
        r@ == words@.subrange(start as int, end as int),
{
    let mut r: Vec<u64> = Vec::with_capacity(end - start);
    let mut i: usize = start;
    while i < end
        invariant
            start <= i <= end <= words@.len(),
            r@ == words@.subrange(start as int, i as int),
        decreases end - i,
    {
        r.push(words[i]);
        i = i + 1;
        proof {
            assert(r@ =~= words@.subrange(start as int, i as int));
        }
    }
    r
}

} // verus!
