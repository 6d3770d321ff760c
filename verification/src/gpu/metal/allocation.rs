//! Where a requested buffer comes from: the pool, the device, or the caller's own memory.

use crate::bits;
use crate::gpu::metal::buffer_pool::{Buffer, BufferPool};
use vstd::arithmetic::div_mod::*;
use vstd::arithmetic::power2::*;
use vstd::prelude::*;

verus! {

/// Buffer sizes are rounded up to a multiple of this.
pub const ALIGNMENT: usize = 256;

/// Memory pages of the device's host.
pub const PAGE_SIZE: usize = 16384;

/// A request for a buffer, decided.
#[derive(Debug, PartialEq, Eq, Structural)]
pub enum Allocation {
    /// The pool had one.
    Pooled(Buffer),
    /// The device is to create one of this many bytes.
    Create { size: usize },
}

/// Memory of the caller's as a buffer.
#[derive(Clone, Copy, Debug, PartialEq, Eq, Structural)]
pub enum Wrapping {
    /// The device can use the memory in place, as a buffer of `mapped` bytes; `in_use` bytes of it
    /// are in use.
    InPlace { mapped: usize, in_use: usize },
    /// The device is to create a buffer of this many bytes and copy them.
    Copy { size: usize },
}

/// The smallest multiple of `unit` that is at least `len`.
pub open spec fn aligned(len: int, unit: int) -> int {
    ((len + unit - 1) / unit) * unit
}

/// What rounding up amounts to.
pub proof fn theorem_aligned(len: int, unit: int)
    requires
        0 <= len,
        0 < unit,
    ensures
        len <= aligned(len, unit) < len + unit,
        aligned(len, unit) % unit == 0,
        len % unit == 0 ==> aligned(len, unit) == len,
{
    let q = (len + unit - 1) / unit;
    lemma_fundamental_div_mod(len + unit - 1, unit);
    lemma_mod_division_less_than_divisor(len + unit - 1, unit);
    vstd::arithmetic::mul::lemma_mul_is_commutative(q, unit);
    lemma_mod_multiples_basic(q, unit);
    if len % unit == 0 {
        let d = aligned(len, unit) - len;
        lemma_sub_mod_noop(aligned(len, unit), len, unit);
        lemma_small_mod(d as nat, unit as nat);
        lemma_small_mod(0, unit as nat);
    }
}

/// The smallest multiple of [`ALIGNMENT`] that is at least `len`.
pub fn align_to_256(len: usize) -> (r: usize)
    requires
        len + ALIGNMENT - 1 <= usize::MAX,
    ensures
        r == aligned(len as int, ALIGNMENT as int),
        r >= len,
        r < len + 256,
        r as int % 256 == 0,
{
    proof {
        theorem_aligned(len as int, ALIGNMENT as int);
    }
    ((len + (ALIGNMENT - 1)) / ALIGNMENT) * ALIGNMENT
}

/// A size up to the largest power of two stays so when it is rounded up.
proof fn lemma_aligned_bound(len: usize)
    requires
        len <= pow2((usize::BITS - 1) as nat),
    ensures
        len + ALIGNMENT - 1 <= usize::MAX,
        aligned(len as int, ALIGNMENT as int) <= pow2((usize::BITS - 1) as nat),
{
    lemma2_to64();
    lemma2_to64_rest();
    theorem_aligned(len as int, ALIGNMENT as int);
}

/// Whether a request for `len` bytes is decided as `r`: by the pool's buffer of the rounded size's
/// class, or by the creation of one as large as the class.
pub open spec fn is_allocation(
    before: &BufferPool,
    len: usize,
    r: Allocation,
    after: &BufferPool,
) -> bool {
    let size = aligned(len as int, ALIGNMENT as int) as usize;
    &&& crate::gpu::metal::buffer_pool::is_get(
        before,
        size,
        match r {
            Allocation::Pooled(buffer) => Some(buffer),
            Allocation::Create { .. } => None,
        },
        after,
    )
    &&& r matches Allocation::Create { size: created } ==> created
        == crate::gpu::metal::buffer_pool::class_of(size as int)
}

/// Decides a request for `len` bytes, rounded up to a multiple of [`ALIGNMENT`].
pub fn allocate(pool: &mut BufferPool, len: usize) -> (r: Allocation)
    requires
        old(pool).wf(),
        len <= pow2((usize::BITS - 1) as nat),
    ensures
        final(pool).wf(),
        is_allocation(old(pool), len, r, final(pool)),
{
    proof {
        lemma_aligned_bound(len);
    }
    let size: usize = align_to_256(len);
    match pool.get(size) {
        Some(buffer) => Allocation::Pooled(buffer),
        None => Allocation::Create { size: BufferPool::size_class(size) },
    }
}

impl Allocation {
    /// Whether the buffer came from the pool.
    pub open spec fn spec_from_pool(&self) -> bool {
        *self is Pooled
    }

    /// Whether the buffer came from the pool, so that it need not be cleared.
    pub fn from_pool(&self) -> (r: bool)
        ensures
            r == self.spec_from_pool(),
    {
        match self {
            Allocation::Pooled(_) => true,
            Allocation::Create { .. } => false,
        }
    }

    /// The bytes that come into use.
    pub open spec fn spec_tracked_bytes(&self) -> usize {
        match self {
            Allocation::Pooled(buffer) => buffer.length,
            Allocation::Create { size } => *size,
        }
    }

    /// The bytes that come into use.
    pub fn tracked_bytes(&self) -> (r: usize)
        ensures
            r == self.spec_tracked_bytes(),
    {
        match self {
            Allocation::Pooled(buffer) => buffer.length,
            Allocation::Create { size } => *size,
        }
    }
}

/// What comes into use with a buffer is what goes out of use with it: all its bytes.
pub proof fn theorem_tracked_bytes(r: Allocation)
    ensures
        r matches Allocation::Pooled(buffer) ==> r.spec_tracked_bytes() == buffer.length
            && r.spec_from_pool(),
        r matches Allocation::Create { size } ==> r.spec_tracked_bytes() == size
            && !r.spec_from_pool(),
{
}

/// A created buffer is large enough for the request and a whole number of [`ALIGNMENT`] units.
pub proof fn theorem_created_buffer_suffices(
    before: &BufferPool,
    len: usize,
    size: usize,
    after: &BufferPool,
)
    requires
        len <= pow2((usize::BITS - 1) as nat),
        is_allocation(before, len, Allocation::Create { size }, after),
    ensures
        size >= len,
        size >= 4096,
        size >= aligned(len as int, 256),
        size == 4096 || size < 2 * aligned(len as int, 256),
        bits::power_of_two(size as int),
{
    lemma_aligned_bound(len);
    crate::gpu::metal::buffer_pool::theorem_class_is_least(aligned(len as int, 256));
    theorem_aligned(len as int, ALIGNMENT as int);
    let s = aligned(len as int, ALIGNMENT as int);
    lemma_size_class_exists(s);
}

/// A buffer is created only where the pool has none of the class; else the one that came back last is
/// taken.
pub proof fn theorem_pool_comes_first(
    before: &BufferPool,
    len: usize,
    r: Allocation,
    after: &BufferPool,
)
    requires
        len <= pow2((usize::BITS - 1) as nat),
        is_allocation(before, len, r, after),
    ensures
        ({
            let class = crate::gpu::metal::buffer_pool::class_of(aligned(len as int, 256));
            let free = before.stack(class);
            &&& free.len() == 0 ==> r == (Allocation::Create { size: class as usize })
            &&& free.len() > 0 ==> r == Allocation::Pooled(free.last())
            &&& free.len() > 0 ==> after.stack(class) == free.drop_last()
        }),
{
    lemma_aligned_bound(len);
    crate::gpu::metal::buffer_pool::theorem_class_is_least(aligned(len as int, 256));
}

/// Every size up to the largest power of two has a class.
proof fn lemma_size_class_exists(size: int)
    requires
        0 <= size <= pow2((usize::BITS - 1) as nat),
    ensures
        crate::gpu::metal::buffer_pool::is_size_class(
            size,
            crate::gpu::metal::buffer_pool::class_of(size),
        ),
{
    lemma2_to64();
    let least = if size <= 4096 {
        4096
    } else {
        size
    };
    bits::lemma_pow2_monotonic(12, (usize::BITS - 1) as nat);
    let k = bits::lemma_next_power_of_two_exists(least, (usize::BITS - 1) as nat);
    assert(crate::gpu::metal::buffer_pool::is_size_class(size, pow2(k) as int));
}

/// Decides how memory of `len` bytes at `address` becomes a buffer: in place where it starts on a
/// page boundary, `None` elsewhere.
pub fn try_wrap_no_copy(address: usize, len: usize) -> (r: Option<Wrapping>)
    requires
        len + PAGE_SIZE - 1 <= usize::MAX,
    ensures
        r is Some <==> address as int % PAGE_SIZE as int == 0,
        r is Some <==> address as int % 16384 == 0,
        r matches Some(w) ==> w matches Wrapping::InPlace { mapped, in_use } && {
            &&& in_use == len
            &&& len <= mapped < len + 16384
            &&& mapped as int % 16384 == 0
        },
        r matches Some(w) ==> w == (Wrapping::InPlace {
            mapped: aligned(len as int, PAGE_SIZE as int) as usize,
            in_use: len,
        }),
{
    if address % PAGE_SIZE != 0 {
        return None;
    }
    proof {
        theorem_aligned(len as int, PAGE_SIZE as int);
    }
    let mapped: usize = ((len + (PAGE_SIZE - 1)) / PAGE_SIZE) * PAGE_SIZE;
    Some(Wrapping::InPlace { mapped, in_use: len })
}

/// Decides how memory of `len` bytes at `address` becomes a buffer: in place where it starts on a
/// page boundary, by copying elsewhere.
pub fn wrap_or_copy(address: usize, len: usize) -> (r: Wrapping)
    requires
        len + PAGE_SIZE - 1 <= usize::MAX,
    ensures
        r == if address as int % PAGE_SIZE as int == 0 {
            Wrapping::InPlace {
                mapped: aligned(len as int, PAGE_SIZE as int) as usize,
                in_use: len,
            }
        } else {
            Wrapping::Copy { size: len }
        },
        address as int % 16384 == 0 ==> (r matches Wrapping::InPlace { mapped, in_use } && {
            &&& in_use == len
            &&& len <= mapped < len + 16384
            &&& mapped as int % 16384 == 0
        }),
        address as int % 16384 != 0 ==> r == (Wrapping::Copy { size: len }),
{
    match try_wrap_no_copy(address, len) {
        Some(wrapping) => wrapping,
        None => Wrapping::Copy { size: len },
    }
}

} // verus!
