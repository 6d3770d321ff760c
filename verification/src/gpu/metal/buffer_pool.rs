//! Reuse of device buffers, by size class.

use crate::bits;
use std::collections::HashMap;
use vstd::arithmetic::div_mod::*;
use vstd::arithmetic::mul::*;
use vstd::arithmetic::power2::*;
use vstd::prelude::*;

verus! {

broadcast use vstd::std_specs::hash::group_hash_axioms;

/// The smallest size class.
pub const MIN_SIZE: usize = 4096;

/// The most bytes that a pool keeps.
pub const MAX_POOL_BYTES: usize = 2147483648;

/// Logarithm of the leaves that persistent buffers are sized for by default.
pub const DEFAULT_MAX_DEGREE_LOG2: usize = 25;

/// A device buffer: where its contents are mapped, and how many bytes they are.
#[derive(Debug, PartialEq, Eq, Structural)]
pub struct Buffer {
    pub address: usize,
    pub length: usize,
}

/// The size class of a size: the smallest power of two that is at least as large, and at least
/// [`MIN_SIZE`].
pub open spec fn is_size_class(size: int, class: int) -> bool {
    bits::is_next_power_of_two(
        if size <= MIN_SIZE {
            MIN_SIZE as int
        } else {
            size
        },
        class,
    )
}

/// The size class of a size.
pub open spec fn class_of(size: int) -> int {
    choose|class: int| is_size_class(size, class)
}

/// A size has only one class.
pub proof fn lemma_class_unique(size: int, class: int)
    requires
        is_size_class(size, class),
    ensures
        class_of(size) == class,
{
    let other = class_of(size);
    let k = bits::log2(class);
    let j = bits::log2(other);
    assert(class == pow2(k));
    assert(other == pow2(j));
}

/// A size class is its own class.
pub proof fn theorem_class_idempotent(size: int, class: int)
    requires
        is_size_class(size, class),
    ensures
        class_of(class) == class,
        size <= class,
        MIN_SIZE <= class,
{
    lemma_class_unique(class, class);
}

/// The class of a size is the least power of two, from 4096 on, that is not below the size: half of it
/// would not do.
pub proof fn theorem_class_is_least(size: int)
    requires
        0 <= size <= pow2((usize::BITS - 1) as nat),
    ensures
        bits::power_of_two(class_of(size)),
        4096 <= class_of(size),
        size <= class_of(size),
        class_of(size) == 4096 || class_of(size) < 2 * size,
{
    lemma2_to64();
    let least = if size <= 4096 {
        4096
    } else {
        size
    };
    bits::lemma_pow2_monotonic(12, (usize::BITS - 1) as nat);
    let k = bits::lemma_next_power_of_two_exists(least, (usize::BITS - 1) as nat);
    lemma_class_unique(size, pow2(k) as int);
    if k > 0 {
        lemma_pow2_unfold(k);
        let half = (k - 1) as nat;
        lemma_pow2_pos(half);
        if least <= pow2(half) {
            assert(pow2(k) <= pow2(half));
        }
    }
}

/// Buffers of the pool that belong to a class, the next one to be reused last.
spec fn stack_in(pools: Map<usize, Vec<Buffer>>, class: int) -> Seq<Buffer> {
    if pools.contains_key(class as usize) && class == class as usize {
        pools[class as usize]@
    } else {
        Seq::empty()
    }
}

/// The bytes of all pooled buffers, each counted with its class, for the classes below `2^k`.
spec fn bytes_below(pools: Map<usize, Vec<Buffer>>, k: nat) -> int
    decreases k,
{
    if k == 0 {
        0
    } else {
        let class = pow2((k - 1) as nat) as int;
        bytes_below(pools, (k - 1) as nat) + class * stack_in(pools, class).len()
    }
}

/// A change of one class changes the sum by that class's share.
proof fn lemma_bytes_change(
    before: Map<usize, Vec<Buffer>>,
    after: Map<usize, Vec<Buffer>>,
    j: nat,
    k: nat,
)
    requires
        forall|i: nat|
            i != j ==> #[trigger] stack_in(before, pow2(i) as int) == stack_in(
                after,
                pow2(i) as int,
            ),
    ensures
        bytes_below(after, k) == bytes_below(before, k) + if j < k {
            pow2(j) * stack_in(after, pow2(j) as int).len() - pow2(j) * stack_in(
                before,
                pow2(j) as int,
            ).len()
        } else {
            0
        },
    decreases k,
{
    if k > 0 {
        let i = (k - 1) as nat;
        lemma_bytes_change(before, after, j, i);
        if i != j {
            assert(stack_in(before, pow2(i) as int) == stack_in(after, pow2(i) as int));
        }
    }
}

/// The sum over all classes is not less than the share of one class.
proof fn lemma_bytes_at_least(pools: Map<usize, Vec<Buffer>>, j: nat, k: nat)
    requires
        j < k,
    ensures
        bytes_below(pools, k) >= pow2(j) * stack_in(pools, pow2(j) as int).len(),
    decreases k,
{
    let i = (k - 1) as nat;
    lemma_bytes_nonnegative(pools, i);
    lemma_mul_nonnegative(pow2(i) as int, stack_in(pools, pow2(i) as int).len() as int);
    if i != j {
        lemma_bytes_at_least(pools, j, i);
    }
}

/// A sum of bytes is not negative.
proof fn lemma_bytes_nonnegative(pools: Map<usize, Vec<Buffer>>, k: nat)
    ensures
        bytes_below(pools, k) >= 0,
    decreases k,
{
    if k > 0 {
        let i = (k - 1) as nat;
        lemma_bytes_nonnegative(pools, i);
        lemma_mul_nonnegative(pow2(i) as int, stack_in(pools, pow2(i) as int).len() as int);
    }
}

/// An empty pool holds no bytes.
proof fn lemma_bytes_empty(k: nat)
    ensures
        bytes_below(Map::empty(), k) == 0,
    decreases k,
{
    if k > 0 {
        lemma_bytes_empty((k - 1) as nat);
        assert(pow2((k - 1) as nat) * 0 == 0) by (nonlinear_arith);
    }
}

/// The sum of the classes of some buffers.
pub open spec fn class_sum(buffers: Seq<Buffer>) -> int
    decreases buffers.len(),
{
    if buffers.len() == 0 {
        0
    } else {
        class_sum(buffers.drop_last()) + class_of(buffers.last().length as int)
    }
}

/// The sum of the classes of the pooled buffers whose class is below `2^k`.
pub open spec fn pooled_bytes(pool: &BufferPool, k: nat) -> int
    decreases k,
{
    if k == 0 {
        0
    } else {
        pooled_bytes(pool, (k - 1) as nat) + class_sum(pool.stack(pow2((k - 1) as nat) as int))
    }
}

/// Buffers of one class sum up to as many times that class.
proof fn lemma_class_sum(buffers: Seq<Buffer>, class: int)
    requires
        forall|i: int|
            0 <= i < buffers.len() ==> is_size_class((#[trigger] buffers[i]).length as int, class),
    ensures
        class_sum(buffers) == class * buffers.len(),
    decreases buffers.len(),
{
    let n = buffers.len() as int;
    if n > 0 {
        let front = buffers.drop_last();
        assert forall|i: int| 0 <= i < front.len() implies is_size_class(
            (#[trigger] front[i]).length as int,
            class,
        ) by {
            assert(front[i] == buffers[i]);
        }
        lemma_class_sum(front, class);
        assert(is_size_class(buffers[n - 1].length as int, class));
        lemma_class_unique(buffers[n - 1].length as int, class);
        assert(class * (n - 1) + class == class * n) by (nonlinear_arith);
    } else {
        lemma_mul_basics(class);
    }
}

/// A counter after one more event; it wraps around.
pub open spec fn incremented(count: usize) -> usize {
    if count == usize::MAX {
        0
    } else {
        (count + 1) as usize
    }
}

/// A pool of buffers that are free for reuse.
#[derive(Debug)]
pub struct BufferPool {
    pools: HashMap<usize, Vec<Buffer>>,
    pool_bytes: usize,
    hits: usize,
    misses: usize,
}

impl BufferPool {
    /// The buffers of a size class, the next one to be reused last.
    pub closed spec fn stack(&self, class: int) -> Seq<Buffer> {
        stack_in(self.pools@, class)
    }

    /// How often a buffer was reused.
    pub closed spec fn spec_hits(&self) -> usize {
        self.hits
    }

    /// How often none could be reused.
    pub closed spec fn spec_misses(&self) -> usize {
        self.misses
    }

    /// The bytes in the pool, each buffer counted with its class.
    pub closed spec fn spec_bytes(&self) -> int {
        self.pool_bytes as int
    }

    /// Every pooled buffer is in its class, and the byte count is that of the pooled buffers and
    /// within the limit.
    pub closed spec fn wf(&self) -> bool {
        &&& self.pool_bytes == bytes_below(self.pools@, usize::BITS as nat)
        &&& self.pool_bytes <= MAX_POOL_BYTES
        &&& forall|class: usize, i: int|
            self.pools@.contains_key(class) && 0 <= i < self.pools@[class]@.len() ==> is_size_class(
                (#[trigger] self.pools@[class]@[i]).length as int,
                class as int,
            )
    }

    /// What is promised of every pool: its bytes are within the limit, and its buffers are in their
    /// classes.
    pub proof fn theorem_wf(&self, class: int, i: int)
        requires
            self.wf(),
        ensures
            0 <= self.spec_bytes() <= MAX_POOL_BYTES,
            self.spec_bytes() <= 0x8000_0000,
            0 <= i < self.stack(class).len() ==> is_size_class(
                self.stack(class)[i].length as int,
                class,
            ),
    {
    }

    /// The byte count is the sum of the classes of the pooled buffers, and there is no class but the
    /// powers of two that it is taken over.
    pub proof fn theorem_bytes_are_sum(&self)
        requires
            self.wf(),
        ensures
            self.spec_bytes() == pooled_bytes(self, usize::BITS as nat),
            forall|class: int| (#[trigger] self.stack(class)).len() > 0 ==> exists|k: nat|
                k < usize::BITS && class == #[trigger] pow2(k),
    {
        self.lemma_bytes_are_sum(usize::BITS as nat);
        assert forall|class: int| (#[trigger] self.stack(class)).len() > 0 implies exists|k: nat|
            k < usize::BITS && class == #[trigger] pow2(k) by {
            self.theorem_wf(class, 0);
            let k = bits::log2(class);
            assert(class == pow2(k));
            bits::lemma_exponent_fits(k);
        }
    }

    /// The same, for the classes below `2^k`.
    proof fn lemma_bytes_are_sum(&self, k: nat)
        requires
            self.wf(),
        ensures
            bytes_below(self.pools@, k) == pooled_bytes(self, k),
        decreases k,
    {
        if k > 0 {
            let class = pow2((k - 1) as nat) as int;
            self.lemma_bytes_are_sum((k - 1) as nat);
            let buffers = self.stack(class);
            assert forall|i: int| 0 <= i < buffers.len() implies is_size_class(
                (#[trigger] buffers[i]).length as int,
                class,
            ) by {
                self.theorem_wf(class, i);
            }
            lemma_class_sum(buffers, class);
        }
    }

    /// The byte count is at least what the buffers of a class amount to.
    pub proof fn theorem_bytes_cover(&self, k: nat)
        requires
            self.wf(),
            k < usize::BITS,
        ensures
            self.spec_bytes() >= pow2(k) * self.stack(pow2(k) as int).len(),
    {
        lemma_bytes_at_least(self.pools@, k, usize::BITS as nat);
    }

    /// An empty pool.
    pub fn new() -> (r: BufferPool)
        ensures
            r.wf(),
            forall|class: int| (#[trigger] r.stack(class)) == Seq::<Buffer>::empty(),
            r.spec_hits() == 0,
            r.spec_misses() == 0,
            r.spec_bytes() == 0,
    {
        proof {
            lemma_bytes_empty(usize::BITS as nat);
        }
        BufferPool { pools: HashMap::new(), pool_bytes: 0, hits: 0, misses: 0 }
    }

    /// The size class of a size.
    pub fn size_class(size: usize) -> (class: usize)
        requires
            size <= pow2((usize::BITS - 1) as nat),
        ensures
            is_size_class(size as int, class as int),
            class == class_of(size as int),
            bits::power_of_two(class as int),
            4096 <= class,
            size <= class,
            class == 4096 || class < 2 * size,
    {
        let size_or_least: usize = if size <= MIN_SIZE {
            MIN_SIZE
        } else {
            size
        };
        proof {
            lemma2_to64();
            bits::lemma_pow2_monotonic(12, (usize::BITS - 1) as nat);
        }
        let class: usize = bits::next_power_of_two(size_or_least);
        proof {
            lemma_class_unique(size as int, class as int);
            theorem_class_is_least(size as int);
        }
        class
    }

    /// Takes the buffer of the size's class that was returned last, if there is one.
    pub fn get(&mut self, size: usize) -> (r: Option<Buffer>)
        requires
            old(self).wf(),
            size <= pow2((usize::BITS - 1) as nat),
        ensures
            final(self).wf(),
            is_get(old(self), size, r, final(self)),
            r matches Some(buffer) ==> is_size_class(
                buffer.length as int,
                class_of(size as int),
            ),
    {
        let size_class: usize = BufferPool::size_class(size);
        let ghost before = self.pools@;
        let taken: Option<Vec<Buffer>> = self.pools.remove(&size_class);
        let mut found: Option<Buffer> = None;
        if let Some(mut buffers) = taken {
            found = buffers.pop();
            self.pools.insert(size_class, buffers);
        }
        proof {
            let k = bits::log2(size_class as int);
            bits::lemma_exponent_fits(k);
            lemma_bytes_at_least(before, k, usize::BITS as nat);
            assert forall|i: nat| i != k implies #[trigger] stack_in(before, pow2(i) as int)
                == stack_in(self.pools@, pow2(i) as int) by {
                if pow2(i) == pow2(k) {
                    bits::lemma_pow2_injective(i, k);
                }
            }
            lemma_bytes_change(before, self.pools@, k, usize::BITS as nat);
            let n = stack_in(before, size_class as int).len();
            if n > 0 {
                assert(stack_in(self.pools@, size_class as int).len() == n - 1);
                assert(size_class * (n - 1) == size_class * n - size_class) by (nonlinear_arith);
                assert(size_class * n >= size_class) by (nonlinear_arith)
                    requires
                        n >= 1,
                        size_class >= 0,
                ;
            }
        }
        match found {
            Some(buffer) => {
                self.pool_bytes = self.pool_bytes - size_class;
                self.hits = self.hits.wrapping_add(1);
                Some(buffer)
            },
            None => {
                self.misses = self.misses.wrapping_add(1);
                None
            },
        }
    }

    /// Whether the pool keeps a buffer of `length` bytes that is returned to it.
    pub fn keeps(&self, length: usize) -> (r: bool)
        requires
            self.wf(),
            length <= pow2((usize::BITS - 1) as nat),
        ensures
            r == (self.spec_bytes() + class_of(length as int) <= MAX_POOL_BYTES),
            r == (self.spec_bytes() + class_of(length as int) <= 0x8000_0000),
    {
        BufferPool::size_class(length) <= MAX_POOL_BYTES - self.pool_bytes
    }

    /// Whether the pool keeps each of two buffers that are returned to it one after the other.
    pub fn keeps_in_turn(&self, first: usize, second: usize) -> (r: (bool, bool))
        requires
            self.wf(),
            first <= pow2((usize::BITS - 1) as nat),
            second <= pow2((usize::BITS - 1) as nat),
        ensures
            r.0 == (self.spec_bytes() + class_of(first as int) <= MAX_POOL_BYTES),
            r.1 == (self.spec_bytes() + (if r.0 {
                class_of(first as int)
            } else {
                0
            }) + class_of(second as int) <= MAX_POOL_BYTES),
            forall|buffer: Buffer, between: BufferPool|
                buffer.length == first && #[trigger] is_put(self, buffer, &between) ==> r.1 == (
                between.spec_bytes() + class_of(second as int) <= 0x8000_0000),
    {
        let kept: bool = self.keeps(first);
        let pooled: usize = if kept {
            self.pool_bytes + BufferPool::size_class(first)
        } else {
            self.pool_bytes
        };
        (kept, BufferPool::size_class(second) <= MAX_POOL_BYTES - pooled)
    }

    /// Keeps a buffer for reuse, unless the pool would exceed its limit.
    pub fn put(&mut self, buffer: Buffer)
        requires
            old(self).wf(),
            buffer.length <= pow2((usize::BITS - 1) as nat),
        ensures
            final(self).wf(),
            is_put(old(self), buffer, final(self)),
    {
        if !self.keeps(buffer.length) {
            return;
        }
        let size_class: usize = BufferPool::size_class(buffer.length);
        let ghost before = self.pools@;
        let taken: Option<Vec<Buffer>> = self.pools.remove(&size_class);
        let mut buffers: Vec<Buffer> = match taken {
            Some(buffers) => buffers,
            None => Vec::new(),
        };
        buffers.push(buffer);
        self.pools.insert(size_class, buffers);
        self.pool_bytes = self.pool_bytes + size_class;
        proof {
            let k = bits::log2(size_class as int);
            bits::lemma_exponent_fits(k);
            assert forall|i: nat| i != k implies #[trigger] stack_in(before, pow2(i) as int)
                == stack_in(self.pools@, pow2(i) as int) by {
                if pow2(i) == pow2(k) {
                    bits::lemma_pow2_injective(i, k);
                }
            }
            lemma_bytes_change(before, self.pools@, k, usize::BITS as nat);
            let n = stack_in(before, size_class as int).len();
            assert(stack_in(self.pools@, size_class as int).len() == n + 1);
            assert(size_class * (n + 1) == size_class * n + size_class) by (nonlinear_arith);
        }
    }

    /// Hits, misses and pooled bytes.
    pub fn stats(&self) -> (r: (usize, usize, usize))
        ensures
            r.0 == self.spec_hits(),
            r.1 == self.spec_misses(),
            r.2 == self.spec_bytes(),
    {
        (self.hits, self.misses, self.pool_bytes)
    }

    /// Lets go of all buffers.
    pub fn clear(&mut self)
        ensures
            final(self).wf(),
            forall|class: int| (#[trigger] final(self).stack(class)) == Seq::<Buffer>::empty(),
            final(self).spec_bytes() == 0,
            final(self).spec_hits() == old(self).spec_hits(),
            final(self).spec_misses() == old(self).spec_misses(),
    {
        self.pools.clear();
        self.pool_bytes = 0;
        proof {
            lemma_bytes_empty(usize::BITS as nat);
        }
    }

    /// Sets hits and misses to zero.
    pub fn reset_stats(&mut self)
        requires
            old(self).wf(),
        ensures
            final(self).wf(),
            final(self).spec_hits() == 0,
            final(self).spec_misses() == 0,
            final(self).spec_bytes() == old(self).spec_bytes(),
            forall|class: int| #[trigger] final(self).stack(class) == old(self).stack(class),
    {
        self.hits = 0;
        self.misses = 0;
    }
}

/// Whether `after` is `before` with the buffer that was returned last for the class of `size` taken
/// out as `r`, or `before` with one more miss where there is none.
pub open spec fn is_get(
    before: &BufferPool,
    size: usize,
    r: Option<Buffer>,
    after: &BufferPool,
) -> bool {
    let class = class_of(size as int);
    let stack = before.stack(class);
    &&& forall|other: int|
        other != class ==> #[trigger] after.stack(other) == before.stack(other)
    &&& if stack.len() > 0 {
        &&& r == Some(stack.last())
        &&& after.stack(class) == stack.drop_last()
        &&& after.spec_bytes() == before.spec_bytes() - class
        &&& after.spec_hits() == incremented(before.spec_hits())
        &&& after.spec_misses() == before.spec_misses()
    } else {
        &&& r is None
        &&& after.stack(class) == stack
        &&& after.spec_bytes() == before.spec_bytes()
        &&& after.spec_hits() == before.spec_hits()
        &&& after.spec_misses() == incremented(before.spec_misses())
    }
}

/// Whether `after` is `before` with `buffer` added to its class, or `before` itself where that would
/// exceed the limit.
pub open spec fn is_put(before: &BufferPool, buffer: Buffer, after: &BufferPool) -> bool {
    let class = class_of(buffer.length as int);
    let stack = before.stack(class);
    &&& after.spec_hits() == before.spec_hits()
    &&& after.spec_misses() == before.spec_misses()
    &&& forall|other: int|
        other != class ==> #[trigger] after.stack(other) == before.stack(other)
    &&& if before.spec_bytes() + class > MAX_POOL_BYTES {
        &&& after.stack(class) == stack
        &&& after.spec_bytes() == before.spec_bytes()
    } else {
        &&& after.stack(class) == stack.push(buffer)
        &&& after.spec_bytes() == before.spec_bytes() + class
    }
}

/// A returned buffer is the next one that is reused for its class, after which the pool is as it
/// was but for one more hit.
pub proof fn theorem_put_then_get(
    before: &BufferPool,
    buffer: Buffer,
    between: &BufferPool,
    size: usize,
    r: Option<Buffer>,
    after: &BufferPool,
)
    requires
        is_put(before, buffer, between),
        is_get(between, size, r, after),
        class_of(size as int) == class_of(buffer.length as int),
        before.spec_bytes() + class_of(buffer.length as int) <= MAX_POOL_BYTES,
    ensures
        r == Some(buffer),
        forall|class: int| #[trigger] after.stack(class) == before.stack(class),
        after.spec_bytes() == before.spec_bytes(),
        after.spec_hits() == incremented(before.spec_hits()),
        after.spec_misses() == before.spec_misses(),
{
    let class = class_of(size as int);
    assert(before.stack(class).push(buffer).drop_last() =~= before.stack(class));
}

/// A call that changes a pool, with what it returned.
pub enum PoolCall {
    Get { size: usize, found: Option<Buffer> },
    Put { buffer: Buffer },
    Clear,
    ResetStats,
}

/// Whether a call turns the pool `before` into `after`.
pub open spec fn is_call(before: BufferPool, call: PoolCall, after: BufferPool) -> bool {
    match call {
        PoolCall::Get { size, found } => is_get(&before, size, found, &after),
        PoolCall::Put { buffer } => is_put(&before, buffer, &after),
        PoolCall::Clear => {
            &&& forall|class: int| (#[trigger] after.stack(class)) == Seq::<Buffer>::empty()
            &&& after.spec_bytes() == 0
            &&& after.spec_hits() == before.spec_hits()
            &&& after.spec_misses() == before.spec_misses()
        },
        PoolCall::ResetStats => {
            &&& forall|class: int| #[trigger] after.stack(class) == before.stack(class)
            &&& after.spec_bytes() == before.spec_bytes()
            &&& after.spec_hits() == 0
            &&& after.spec_misses() == 0
        },
    }
}

/// The requests since the statistics were last reset.
pub open spec fn requests(calls: Seq<PoolCall>) -> nat
    decreases calls.len(),
{
    if calls.len() == 0 {
        0
    } else {
        match calls.last() {
            PoolCall::Get { .. } => requests(calls.drop_last()) + 1,
            PoolCall::ResetStats => 0,
            _ => requests(calls.drop_last()),
        }
    }
}

/// The requests since the statistics were last reset that found a buffer.
pub open spec fn reuses(calls: Seq<PoolCall>) -> nat
    decreases calls.len(),
{
    if calls.len() == 0 {
        0
    } else {
        match calls.last() {
            PoolCall::Get { found: Some(_), .. } => reuses(calls.drop_last()) + 1,
            PoolCall::ResetStats => 0,
            _ => reuses(calls.drop_last()),
        }
    }
}

/// Counting one more event, modulo the number of values that a counter has.
proof fn lemma_counter_step(count: usize, events: int)
    requires
        0 <= events,
        count as int == events % (usize::MAX + 1),
    ensures
        incremented(count) as int == (events + 1) % (usize::MAX + 1),
{
    let m = usize::MAX + 1;
    let q = events / m;
    lemma_fundamental_div_mod(events, m);
    lemma_mul_is_commutative(m, q);
    if count == usize::MAX {
        assert((q + 1) * m == q * m + m) by (nonlinear_arith);
        lemma_fundamental_div_mod_converse(events + 1, m, q + 1, 0);
    } else {
        lemma_fundamental_div_mod_converse(events + 1, m, q, count + 1);
    }
}

/// Over any calls on a pool whose statistics started at zero, the hits are the requests that found a
/// buffer, and the misses the other requests, modulo the number of values that a counter has. Where
/// the counters do not wrap around, hits and misses together are all requests.
pub proof fn theorem_stats_count_requests(pools: Seq<BufferPool>, calls: Seq<PoolCall>)
    requires
        pools.len() == calls.len() + 1,
        pools[0].spec_hits() == 0,
        pools[0].spec_misses() == 0,
        forall|i: int|
            0 <= i < calls.len() ==> is_call(pools[i], #[trigger] calls[i], pools[i + 1]),
    ensures
        reuses(calls) <= requests(calls),
        pools.last().spec_hits() as int == reuses(calls) as int % (usize::MAX + 1),
        pools.last().spec_misses() as int == (requests(calls) - reuses(calls)) % (usize::MAX + 1),
        requests(calls) <= usize::MAX ==> {
            &&& pools.last().spec_hits() == reuses(calls)
            &&& pools.last().spec_hits() + pools.last().spec_misses() == requests(calls)
        },
    decreases calls.len(),
{
    let m = usize::MAX + 1;
    lemma_counts_bounded(calls);
    if calls.len() > 0 {
        let n = calls.len() - 1;
        let before = calls.drop_last();
        assert forall|i: int| 0 <= i < before.len() implies is_call(
            pools.drop_last()[i],
            #[trigger] before[i],
            pools.drop_last()[i + 1],
        ) by {
            assert(before[i] == calls[i]);
        }
        theorem_stats_count_requests(pools.drop_last(), before);
        lemma_counts_bounded(before);
        assert(is_call(pools[n], calls[n], pools[n + 1]));
        lemma_counter_step(pools[n].spec_hits(), reuses(before) as int);
        lemma_counter_step(pools[n].spec_misses(), requests(before) - reuses(before));
    }
    lemma_small_mod(0, m as nat);
    if requests(calls) <= usize::MAX {
        lemma_small_mod(reuses(calls), m as nat);
        lemma_small_mod((requests(calls) - reuses(calls)) as nat, m as nat);
    }
}

/// There are no more requests than calls.
proof fn lemma_counts_bounded(calls: Seq<PoolCall>)
    ensures
        reuses(calls) <= requests(calls) <= calls.len(),
    decreases calls.len(),
{
    if calls.len() > 0 {
        lemma_counts_bounded(calls.drop_last());
    }
}

/// Buffers that were created as large as their class serve every request for the class.
pub proof fn theorem_class_sized_buffers_suffice(size: usize, buffer: Buffer)
    requires
        is_size_class(size as int, class_of(size as int)),
        buffer.length == class_of(size as int),
    ensures
        buffer.length >= size,
        is_size_class(buffer.length as int, class_of(size as int)),
{
}

/// Hits, misses and pooled bytes of a pool.
pub fn get_buffer_pool_stats(pool: &BufferPool) -> (r: (usize, usize, usize))
    ensures
        r.0 == pool.spec_hits(),
        r.1 == pool.spec_misses(),
        r.2 == pool.spec_bytes(),
{
    pool.stats()
}

/// Sets a pool's hits and misses to zero.
pub fn reset_buffer_pool_stats(pool: &mut BufferPool)
    requires
        old(pool).wf(),
    ensures
        final(pool).wf(),
        final(pool).spec_hits() == 0,
        final(pool).spec_misses() == 0,
        final(pool).spec_bytes() == old(pool).spec_bytes(),
        forall|class: int| #[trigger] final(pool).stack(class) == old(pool).stack(class),
{
    pool.reset_stats()
}

/// Lets go of a pool's buffers.
pub fn clear_buffer_pool(pool: &mut BufferPool)
    ensures
        final(pool).wf(),
        forall|class: int| (#[trigger] final(pool).stack(class)) == Seq::<Buffer>::empty(),
        final(pool).spec_bytes() == 0,
        final(pool).spec_hits() == old(pool).spec_hits(),
        final(pool).spec_misses() == old(pool).spec_misses(),
{
    pool.clear()
}

/// The persistent buffers to create, and the bytes of them to clear.
#[derive(Clone, Copy, Debug, PartialEq, Eq, Structural)]
pub struct PersistentRequest {
    pub digests_size: usize,
    pub clear_digests: usize,
    pub caps_size: usize,
    pub clear_caps: usize,
}

/// Buffers that are created once, large enough for every tree of up to `max_leaves` leaves.
#[derive(Debug)]
pub struct PersistentMerkleBuffers {
    digests_buffer: Buffer,
    caps_buffer: Buffer,
    max_leaves: usize,
    max_degree_log2: usize,
}

/// Bytes for the digests of any tree of up to `2^max_degree_log2` leaves.
pub open spec fn persistent_digests_size(max_degree_log2: nat) -> nat {
    2 * pow2(max_degree_log2) * 32
}

/// Bytes for the cap of any tree of up to `2^max_degree_log2` leaves.
pub open spec fn persistent_caps_size(max_degree_log2: nat) -> nat {
    pow2(max_degree_log2) * 32
}

impl PersistentMerkleBuffers {
    /// The digests buffer.
    pub closed spec fn spec_digests_buffer(&self) -> Buffer {
        self.digests_buffer
    }

    /// The caps buffer.
    pub closed spec fn spec_caps_buffer(&self) -> Buffer {
        self.caps_buffer
    }

    /// The most leaves that a tree may have.
    pub closed spec fn spec_max_leaves(&self) -> usize {
        self.max_leaves
    }

    /// Logarithm of the most leaves.
    pub closed spec fn spec_max_degree_log2(&self) -> usize {
        self.max_degree_log2
    }

    /// The buffers are as large as the largest tree needs them.
    pub open spec fn wf(&self) -> bool {
        &&& self.spec_max_degree_log2() <= 26
        &&& self.spec_max_leaves() == pow2(self.spec_max_degree_log2() as nat)
        &&& self.spec_digests_buffer().length == persistent_digests_size(
            self.spec_max_degree_log2() as nat,
        )
        &&& self.spec_caps_buffer().length == persistent_caps_size(
            self.spec_max_degree_log2() as nat,
        )
    }

    /// The buffers to create for trees of up to `2^max_degree_log2` leaves; all of each is cleared.
    pub fn request(max_degree_log2: usize) -> (r: PersistentRequest)
        requires
            max_degree_log2 <= 26,
            persistent_digests_size(max_degree_log2 as nat) <= usize::MAX,
        ensures
            r.digests_size == persistent_digests_size(max_degree_log2 as nat),
            r.clear_digests == r.digests_size,
            r.caps_size == persistent_caps_size(max_degree_log2 as nat),
            r.clear_caps == r.caps_size,
            r.digests_size == 64 * pow2(max_degree_log2 as nat),
            r.caps_size == 32 * pow2(max_degree_log2 as nat),
    {
        let max_leaves: usize = bits::shl_one(max_degree_log2);
        let digests_size: usize = 2 * max_leaves * 32;
        let caps_size: usize = max_leaves * 32;
        PersistentRequest {
            digests_size,
            clear_digests: digests_size,
            caps_size,
            clear_caps: caps_size,
        }
    }

    /// Takes over the buffers that were created and cleared for trees of up to `2^max_degree_log2`
    /// leaves.
    pub fn new(max_degree_log2: usize, digests_buffer: Buffer, caps_buffer: Buffer) -> (r: Self)
        requires
            max_degree_log2 <= 26,
            digests_buffer.length == persistent_digests_size(max_degree_log2 as nat),
            caps_buffer.length == persistent_caps_size(max_degree_log2 as nat),
        ensures
            r.wf(),
            r.spec_max_degree_log2() == max_degree_log2,
            r.spec_max_leaves() == pow2(max_degree_log2 as nat),
            r.spec_digests_buffer() == digests_buffer,
            r.spec_caps_buffer() == caps_buffer,
    {
        let max_leaves: usize = bits::shl_one(max_degree_log2);
        PersistentMerkleBuffers { digests_buffer, caps_buffer, max_leaves, max_degree_log2 }
    }

    /// Takes over the buffers that were created and cleared for trees of the default size.
    pub fn with_default_size(digests_buffer: Buffer, caps_buffer: Buffer) -> (r: Self)
        requires
            digests_buffer.length == persistent_digests_size(DEFAULT_MAX_DEGREE_LOG2 as nat),
            caps_buffer.length == persistent_caps_size(DEFAULT_MAX_DEGREE_LOG2 as nat),
        ensures
            r.wf(),
            r.spec_max_degree_log2() == DEFAULT_MAX_DEGREE_LOG2,
            r.spec_max_leaves() == pow2(25),
            r.spec_digests_buffer() == digests_buffer,
            r.spec_caps_buffer() == caps_buffer,
    {
        PersistentMerkleBuffers::new(DEFAULT_MAX_DEGREE_LOG2, digests_buffer, caps_buffer)
    }

    /// Whether a tree of `leaf_count` leaves fits.
    pub fn fits(&self, leaf_count: usize) -> (r: bool)
        ensures
            r == (leaf_count <= self.spec_max_leaves()),
    {
        leaf_count <= self.max_leaves
    }

    /// The most leaves that a tree may have.
    pub fn max_leaves(&self) -> (r: usize)
        ensures
            r == self.spec_max_leaves(),
    {
        self.max_leaves
    }

    /// Logarithm of the most leaves that a tree may have.
    pub fn max_degree_log2(&self) -> (r: usize)
        ensures
            r == self.spec_max_degree_log2(),
    {
        self.max_degree_log2
    }

    /// The digests buffer.
    pub fn digests_buffer(&self) -> (r: &Buffer)
        ensures
            *r == self.spec_digests_buffer(),
    {
        &self.digests_buffer
    }

    /// The caps buffer.
    pub fn caps_buffer(&self) -> (r: &Buffer)
        ensures
            *r == self.spec_caps_buffer(),
    {
        &self.caps_buffer
    }

    /// Where the contents of the digests buffer and of the caps buffer are mapped.
    pub fn buffer_addresses(&self) -> (r: (usize, usize))
        ensures
            r.0 == self.spec_digests_buffer().address,
            r.1 == self.spec_caps_buffer().address,
    {
        (self.digests_buffer.address, self.caps_buffer.address)
    }

    /// A tree that fits has room for its digests, in the recursive and in the linear layout, and
    /// for its cap.
    pub proof fn theorem_fitting_tree_has_room(&self, leaf_count: nat, num_caps: nat)
        requires
            self.wf(),
            leaf_count <= self.spec_max_leaves(),
            0 < num_caps <= leaf_count,
        ensures
            (2 * leaf_count - num_caps) * 32 <= self.spec_digests_buffer().length,
            num_caps * 32 <= self.spec_caps_buffer().length,
    {
    }
}

} // verus!
