//! A batch of polynomials that is transformed in place, over and over, by a benchmark.

use crate::bits;
use crate::flat;
use crate::hash::metal::ntt::{self, MetalNTT, NttLaunch, NttWidths};
use crate::hash::metal::ntt_kernels;
use crate::math::goldilocks;
use crate::math::transform;
use vstd::arithmetic::power2::*;
use vstd::prelude::*;

verus! {

/// The contents of a data buffer with `batches` polynomials of `2^log_n` coefficients each.
#[derive(Debug)]
pub struct MetalNttBenchBuffer {
    words: Vec<u64>,
    log_n: usize,
    batches: usize,
}

impl MetalNttBenchBuffer {
    /// The words of the buffer.
    pub closed spec fn spec_words(&self) -> Seq<u64> {
        self.words@
    }

    /// Logarithm of the number of coefficients of a polynomial.
    pub closed spec fn spec_log_n(&self) -> nat {
        self.log_n as nat
    }

    /// The number of polynomials.
    pub closed spec fn spec_batches(&self) -> nat {
        self.batches as nat
    }

    /// The buffer holds all coefficients of all polynomials.
    pub open spec fn wf(&self) -> bool {
        &&& self.spec_log_n() < usize::BITS
        &&& self.spec_words().len() == self.spec_batches() * pow2(self.spec_log_n())
    }

    /// A buffer that holds `input`.
    pub fn new(log_n: usize, batches: usize, input: &Vec<u64>) -> (r: Self)
        requires
            log_n < usize::BITS,
            input@.len() == batches * pow2(log_n as nat),
        ensures
            r.wf(),
            r.spec_words() == input@,
            r.spec_log_n() == log_n,
            r.spec_batches() == batches,
    {
        let words: Vec<u64> = flat::copy_range(input, 0, input.len());
        proof {
            assert(words@ =~= input@);
        }
        MetalNttBenchBuffer { words, log_n, batches }
    }

    /// One forward transform of all polynomials, in place.
    pub fn run_forward_ntt(&self, ntt: &MetalNTT, widths: &NttWidths) -> (r: Vec<NttLaunch>)
        requires
            self.wf(),
            ntt.wf(),
            self.spec_log_n() <= ntt.limit(),
            widths.fits(self.spec_words().len() as int),
        ensures
            r@ == ntt::batch_schedule(
                pow2(self.spec_log_n()),
                self.spec_log_n(),
                ntt.stride(pow2(self.spec_log_n())),
                self.spec_batches(),
                *widths,
            ),
    {
        let n: usize = bits::shl_one(self.log_n);
        ntt.batch_ntt_in_place(n, self.log_n, self.batches, widths)
    }

    /// A forward transform leaves, for each polynomial, its transform in the polynomial's place. The
    /// words are fewer than `2^32`, as the kernels number their threads in 32 bits.
    pub proof fn theorem_forward_ntt(&self, ntt: &MetalNTT, widths: NttWidths, b: int)
        requires
            self.wf(),
            ntt.wf(),
            self.spec_log_n() <= ntt.limit(),
            widths.fits(self.spec_words().len() as int),
            self.spec_words().len() <= u32::MAX,
            ntt_kernels::canonical(self.spec_words()),
            0 <= b < self.spec_batches(),
        ensures
            ({
                let n = pow2(self.spec_log_n()) as int;
                let launches = ntt::batch_schedule(
                    pow2(self.spec_log_n()),
                    self.spec_log_n(),
                    ntt.stride(pow2(self.spec_log_n())),
                    self.spec_batches(),
                    widths,
                );
                let after = ntt_kernels::after_launches(ntt, launches, self.spec_words());
                &&& after.len() == self.spec_words().len()
                &&& 0 <= b * n
                &&& b * n + n <= after.len()
                &&& transform::is_transform(
                    self.spec_words().subrange(b * n, b * n + n),
                    goldilocks::root_of_unity(self.spec_log_n()),
                    after.subrange(b * n, b * n + n),
                )
            }),
    {
        ntt_kernels::theorem_batch_transform(
            ntt,
            self.spec_log_n(),
            self.spec_batches(),
            widths,
            self.spec_words(),
            b,
        );
    }

    /// Takes over the words that the device left in the buffer.
    pub fn complete(&mut self, words: Vec<u64>)
        requires
            old(self).wf(),
            words@.len() == old(self).spec_words().len(),
        ensures
            final(self).wf(),
            final(self).spec_words() == words@,
            final(self).spec_log_n() == old(self).spec_log_n(),
            final(self).spec_batches() == old(self).spec_batches(),
    {
        self.words = words;
    }

    /// The words of the buffer, polynomial after polynomial.
    pub fn read_flat(&self) -> (r: Vec<u64>)
        ensures
            r@ == self.spec_words(),
    {
        let r: Vec<u64> = flat::copy_range(&self.words, 0, self.words.len());
        proof {
            assert(r@ =~= self.spec_words());
        }
        r
    }
}

} // verus!
