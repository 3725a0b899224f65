use vstd::prelude::*;

verus! {

/// The largest order of a block: blocks span `MIN_PAGE_SIZE << order` bytes
/// for `order` in `0..=MAX_ORDER`.
pub const MAX_ORDER: usize = 10;

/// Size in bytes of an order-0 block.
pub const MIN_PAGE_SIZE: usize = 4096;

/// Base-two logarithm of `MIN_PAGE_SIZE`.
pub const MIN_PAGE_SHIFT: usize = 12;

/// Size in bytes of a block of the given order: `4096 * 2^order`.
pub open spec fn block_size(order: int) -> int
    decreases order,
{
    if order <= 0 {
        4096
    } else {
        2 * block_size(order - 1)
    }
}

/// Size in bytes of the largest block.
pub open spec fn max_block_size() -> int {
    block_size(MAX_ORDER as int)
}

/// The address of the block that pairs with the block at `addr` of the
/// given order to form a block of the next order.
pub open spec fn buddy_of(addr: int, order: int) -> int {
    if (addr / block_size(order)) % 2 == 0 {
        addr + block_size(order)
    } else {
        addr - block_size(order)
    }
}

pub proof fn lemma_block_size_bounds(order: int)
    requires
        0 <= order <= MAX_ORDER,
    ensures
        4096 <= block_size(order) <= 4194304,
        block_size(order) % 4096 == 0,
        max_block_size() == 4194304,
        order < MAX_ORDER ==> block_size(order + 1) == 2 * block_size(order),
    decreases order,
{
    reveal_with_fuel(block_size, 11);
    if order > 0 {
        lemma_block_size_bounds(order - 1);
    }
}

/// Smaller blocks divide larger ones.
pub proof fn lemma_block_size_divides(small: int, large: int)
    requires
        0 <= small <= large,
    ensures
        block_size(large) % block_size(small) == 0,
        block_size(small) <= block_size(large),
    decreases large,
{
    lemma_block_size_positive(small);
    if large > small {
        lemma_block_size_divides(small, large - 1);
        let b = block_size(small);
        let x = block_size(large - 1);
        assert(block_size(large) == x + x);
        vstd::arithmetic::div_mod::lemma_add_mod_noop(x, x, b);
        vstd::arithmetic::div_mod::lemma_small_mod(0, b as nat);
    } else {
        vstd::arithmetic::div_mod::lemma_mod_self_0(block_size(small));
    }
}

pub proof fn lemma_block_size_positive(order: int)
    ensures
        block_size(order) >= 4096,
    decreases order,
{
    if order > 0 {
        lemma_block_size_positive(order - 1);
    }
}

proof fn lemma_shl_base()
    ensures
        1usize << 12usize == 4096usize,
{
    assert(1usize << 12usize == 4096usize) by (bit_vector);
}

proof fn lemma_shl_double(k: usize)
    requires
        k + 1 < usize::BITS,
    ensures
        (1usize << ((k + 1) as usize)) as int == 2 * ((1usize << k) as int),
{
    assert((1usize << ((k + 1) as usize)) as int == 2 * ((1usize << k) as int)) by (bit_vector)
        requires
            k + 1 < usize::BITS,
    ;
}

/// The size of a block is the power of two `1 << (order + 12)`, for every
/// order whose size fits in a machine word.
pub proof fn lemma_block_size_shift(order: int)
    requires
        0 <= order,
        order + MIN_PAGE_SHIFT < usize::BITS,
    ensures
        block_size(order) == (1usize << ((order + 12) as usize)) as int,
    decreases order,
{
    if order == 0 {
        lemma_shl_base();
    } else {
        lemma_block_size_shift(order - 1);
        lemma_shl_double((order + 11) as usize);
    }
}

proof fn lemma_xor_power_of_two(a: usize, k: usize)
    requires
        k < 32,
        a % (1usize << k) == 0,
    ensures
        (a / (1usize << k)) % 2 == 0 ==> (a ^ (1usize << k)) as int == a as int + (1usize << k) as int,
        (a / (1usize << k)) % 2 == 1 ==> (a ^ (1usize << k)) as int == a as int - (1usize << k) as int,
{
    assert((a / (1usize << k)) % 2 == 0 ==> (a ^ (1usize << k)) as int == a as int + (1usize
        << k) as int) by (bit_vector)
        requires
            k < 32usize,
            a % (1usize << k) == 0usize,
    ;
    assert((a / (1usize << k)) % 2 == 1 ==> (a ^ (1usize << k)) as int == a as int - (1usize
        << k) as int) by (bit_vector)
        requires
            k < 32usize,
            a % (1usize << k) == 0usize,
    ;
}

/// For an aligned block, flipping the size bit of its address gives its buddy.
pub proof fn lemma_buddy_xor(addr: usize, order: int)
    requires
        0 <= order <= MAX_ORDER,
        addr as int % block_size(order) == 0,
    ensures
        (addr ^ (block_size(order) as usize)) as int == buddy_of(addr as int, order),
{
    lemma_block_size_shift(order);
    lemma_block_size_positive(order);
    lemma_xor_power_of_two(addr, (order + 12) as usize);
    vstd::arithmetic::div_mod::lemma_mod_division_less_than_divisor(
        addr as int / block_size(order),
        2,
    );
}

/// Size in bytes of a block of the given order.
pub fn page_size(order: usize) -> (size: usize)
    requires
        order + MIN_PAGE_SHIFT < usize::BITS,
    ensures
        size as int == block_size(order as int),
{
    proof {
        lemma_block_size_shift(order as int);
    }
    1usize << (order + MIN_PAGE_SHIFT)
}

} // verus!

verus! {

/// Index `i` of a block of size `b` inside a region of `total` bytes:
/// the block `[i * b, i * b + b)` lies inside the region.
pub proof fn lemma_index_in_region(total: int, b: int, i: int)
    requires
        b > 0,
        total >= 0,
        0 <= i < total / b,
    ensures
        0 <= i * b,
        i * b + b <= total,
{
    assert(0 <= i * b) by (nonlinear_arith)
        requires
            b > 0,
            i >= 0,
    ;
    vstd::arithmetic::div_mod::lemma_fundamental_div_mod(total, b);
    assert(i * b + b <= (total / b) * b) by (nonlinear_arith)
        requires
            b > 0,
            i + 1 <= total / b,
    ;
    vstd::arithmetic::div_mod::lemma_mod_bound(total, b);
}

/// A block of size `b` at offset `off` (a multiple of `b`) inside a region of
/// `total` bytes has index `off / b < total / b`.
pub proof fn lemma_offset_index(total: int, b: int, off: int)
    requires
        b > 0,
        off >= 0,
        off % b == 0,
        off + b <= total,
    ensures
        (off / b) * b == off,
        0 <= off / b < total / b,
{
    vstd::arithmetic::div_mod::lemma_fundamental_div_mod(off, b);
    vstd::arithmetic::div_mod::lemma_fundamental_div_mod(total, b);
    vstd::arithmetic::div_mod::lemma_mod_bound(total, b);
    let q = off / b;
    let t = total / b;
    assert(q * b == off) by (nonlinear_arith)
        requires
            off == b * q + 0,
    ;
    assert(q >= 0) by (nonlinear_arith)
        requires
            b > 0,
            off >= 0,
            off == b * q,
    ;
    assert(q < t) by (nonlinear_arith)
        requires
            b > 0,
            off == b * q,
            total == b * t + total % b,
            0 <= total % b < b,
            off + b <= total,
    ;
}

/// Distinct indices give distinct blocks.
pub proof fn lemma_mul_cancel(i: int, j: int, b: int)
    requires
        b > 0,
        i * b == j * b,
    ensures
        i == j,
{
    assert(i == j) by (nonlinear_arith)
        requires
            b > 0,
            i * b == j * b,
    ;
}

} // verus!

verus! {

/// An offset aligned to a block of some order is aligned to every smaller order.
pub proof fn lemma_aligned_down(x: int, small: int, large: int)
    requires
        0 <= small <= large,
        x % block_size(large) == 0,
    ensures
        x % block_size(small) == 0,
{
    lemma_block_size_divides(small, large);
    lemma_block_size_positive(small);
    lemma_block_size_positive(large);
    let b = block_size(small);
    let c = block_size(large);
    vstd::arithmetic::div_mod::lemma_fundamental_div_mod(x, c);
    vstd::arithmetic::div_mod::lemma_fundamental_div_mod(c, b);
    let q = x / c;
    let r = c / b;
    assert(x == b * (r * q)) by (nonlinear_arith)
        requires
            x == c * q + 0,
            c == b * r + 0,
    ;
    vstd::arithmetic::div_mod::lemma_mod_multiples_basic(r * q, b);
    assert((r * q) * b == b * (r * q)) by (nonlinear_arith);
}

} // verus!

verus! {

/// Offsets from a start aligned to the largest block keep their alignment
/// when taken from address zero.
pub proof fn lemma_aligned_absolute(start: int, a: int, order: int)
    requires
        0 <= order <= MAX_ORDER,
        start % max_block_size() == 0,
        (a - start) % block_size(order) == 0,
    ensures
        a % block_size(order) == 0,
        start % block_size(order) == 0,
{
    lemma_aligned_down(start, order, MAX_ORDER as int);
    lemma_block_size_positive(order);
    let b = block_size(order);
    vstd::arithmetic::div_mod::lemma_add_mod_noop(a - start, start, b);
    vstd::arithmetic::div_mod::lemma_small_mod(0, b as nat);
}

/// The buddy of an aligned block of order `order < MAX_ORDER` lies next to
/// it, and the two together form an aligned block of the next order.
pub proof fn lemma_buddy_pair(start: int, a: int, order: int)
    requires
        0 <= order < MAX_ORDER,
        start >= 0,
        start % block_size(order + 1) == 0,
        a >= start,
        (a - start) % block_size(order) == 0,
    ensures
        ({
            let b = buddy_of(a, order);
            let low = if a < b { a } else { b };
            &&& b >= start
            &&& (b - start) % block_size(order) == 0
            &&& (low - start) % block_size(order + 1) == 0
            &&& (b == a + block_size(order) || b == a - block_size(order))
            &&& low == a || low == b
            &&& low + block_size(order) == (if a < b { b } else { a })
        }),
{
    lemma_block_size_bounds(order);
    let bs = block_size(order);
    let x = a - start;
    vstd::arithmetic::div_mod::lemma_fundamental_div_mod(x, bs);
    vstd::arithmetic::div_mod::lemma_fundamental_div_mod(start, 2 * bs);
    let k = x / bs;
    let m = start / (2 * bs);
    assert(x == bs * k);
    assert(start == (2 * bs) * m);
    assert(k >= 0) by (nonlinear_arith)
        requires
            x >= 0,
            x == bs * k,
            bs > 0,
    ;
    assert(a == bs * (2 * m + k)) by (nonlinear_arith)
        requires
            a == x + start,
            x == bs * k,
            start == (2 * bs) * m,
    ;
    vstd::arithmetic::div_mod::lemma_div_multiples_vanish(2 * m + k, bs);
    assert(a / bs == 2 * m + k) by (nonlinear_arith)
        requires
            a == bs * (2 * m + k),
            (bs * (2 * m + k)) / bs == 2 * m + k,
    ;
    let b = buddy_of(a, order);
    if k % 2 == 0 {
        assert((a / bs) % 2 == 0);
        assert(b == a + bs);
        let j = k / 2;
        assert(x == (2 * bs) * j) by (nonlinear_arith)
            requires
                x == bs * k,
                k == 2 * j,
        ;
        vstd::arithmetic::div_mod::lemma_mod_multiples_basic(j, 2 * bs);
        assert(j * (2 * bs) == (2 * bs) * j) by (nonlinear_arith);
        assert(b - start == bs * (k + 1)) by (nonlinear_arith)
            requires
                b - start == x + bs,
                x == bs * k,
        ;
        vstd::arithmetic::div_mod::lemma_mod_multiples_basic(k + 1, bs);
        assert((k + 1) * bs == bs * (k + 1)) by (nonlinear_arith);
    } else {
        assert((a / bs) % 2 == 1);
        assert(b == a - bs);
        assert(k >= 1);
        let j = (k - 1) / 2;
        assert(b - start == (2 * bs) * j) by (nonlinear_arith)
            requires
                b - start == x - bs,
                x == bs * k,
                k - 1 == 2 * j,
        ;
        vstd::arithmetic::div_mod::lemma_mod_multiples_basic(j, 2 * bs);
        assert(j * (2 * bs) == (2 * bs) * j) by (nonlinear_arith);
        assert(b - start == bs * (k - 1)) by (nonlinear_arith)
            requires
                b - start == x - bs,
                x == bs * k,
        ;
        vstd::arithmetic::div_mod::lemma_mod_multiples_basic(k - 1, bs);
        assert((k - 1) * bs == bs * (k - 1)) by (nonlinear_arith);
        assert(b - start >= 0) by (nonlinear_arith)
            requires
                b - start == bs * (k - 1),
                k >= 1,
                bs > 0,
        ;
    }
}

/// An aligned block that reaches past the end of a region has no index in it.
pub proof fn lemma_index_past_region(total: int, b: int, off: int)
    requires
        b > 0,
        total >= 0,
        off >= 0,
        off % b == 0,
        off + b > total,
    ensures
        off / b >= total / b,
{
    if off / b < total / b {
        vstd::arithmetic::div_mod::lemma_fundamental_div_mod(off, b);
        lemma_index_in_region(total, b, off / b);
        assert((off / b) * b == off) by (nonlinear_arith)
            requires
                off == b * (off / b) + off % b,
                off % b == 0,
        ;
    }
}

} // verus!

verus! {

/// Buddies come in pairs: the buddy of the buddy of an aligned block is the
/// block itself.
pub proof fn lemma_buddy_involution(x: int, order: int)
    requires
        0 <= order,
        x >= 0,
        x % block_size(order) == 0,
    ensures
        buddy_of(x, order) >= 0,
        buddy_of(x, order) % block_size(order) == 0,
        buddy_of(buddy_of(x, order), order) == x,
{
    lemma_block_size_positive(order);
    let b = block_size(order);
    vstd::arithmetic::div_mod::lemma_fundamental_div_mod(x, b);
    let q = x / b;
    assert(x == b * q);
    assert(q >= 0) by (nonlinear_arith)
        requires
            x == b * q,
            x >= 0,
            b > 0,
    ;
    if q % 2 == 0 {
        assert(buddy_of(x, order) == b * (q + 1)) by (nonlinear_arith)
            requires
                buddy_of(x, order) == x + b,
                x == b * q,
        ;
        vstd::arithmetic::div_mod::lemma_div_multiples_vanish(q + 1, b);
        vstd::arithmetic::div_mod::lemma_mod_multiples_basic(q + 1, b);
        assert((q + 1) * b == b * (q + 1)) by (nonlinear_arith);
    } else {
        assert(q >= 1);
        assert(buddy_of(x, order) == b * (q - 1)) by (nonlinear_arith)
            requires
                buddy_of(x, order) == x - b,
                x == b * q,
        ;
        vstd::arithmetic::div_mod::lemma_div_multiples_vanish(q - 1, b);
        vstd::arithmetic::div_mod::lemma_mod_multiples_basic(q - 1, b);
        assert((q - 1) * b == b * (q - 1)) by (nonlinear_arith);
        assert(b * (q - 1) >= 0) by (nonlinear_arith)
            requires
                q >= 1,
                b > 0,
        ;
    }
}

/// A block aligned to a larger order is the lower one of its buddy pair at
/// every smaller order.
pub proof fn lemma_lower_buddy(x: int, small: int, large: int)
    requires
        0 <= small < large,
        x >= 0,
        x % block_size(large) == 0,
    ensures
        buddy_of(x, small) == x + block_size(small),
        buddy_of(x + block_size(small), small) == x,
{
    lemma_aligned_down(x, small + 1, large);
    lemma_block_size_bounds_any(small);
    let b = block_size(small);
    vstd::arithmetic::div_mod::lemma_fundamental_div_mod(x, 2 * b);
    let q = x / (2 * b);
    assert(x == b * (2 * q)) by (nonlinear_arith)
        requires
            x == (2 * b) * q + 0,
    ;
    vstd::arithmetic::div_mod::lemma_div_multiples_vanish(2 * q, b);
    assert(x / b == 2 * q);
    assert((2 * q) % 2 == 0);
    assert(x + b == b * (2 * q + 1)) by (nonlinear_arith)
        requires
            x == b * (2 * q),
    ;
    vstd::arithmetic::div_mod::lemma_div_multiples_vanish(2 * q + 1, b);
    assert((x + b) / b == 2 * q + 1);
}

/// Each order's blocks are twice as large as the previous order's.
pub proof fn lemma_block_size_bounds_any(order: int)
    requires
        0 <= order,
    ensures
        block_size(order + 1) == 2 * block_size(order),
        block_size(order) > 0,
{
    lemma_block_size_positive(order);
}

} // verus!

verus! {

/// In a region that starts on a boundary of blocks of the next order, the
/// buddy of a block counted from the start of the region is its buddy by
/// address.
pub proof fn lemma_buddy_relative(start: int, a: int, order: int)
    requires
        0 <= order,
        start >= 0,
        start % block_size(order + 1) == 0,
        a >= start,
    ensures
        buddy_of(a, order) == start + buddy_of(a - start, order),
{
    lemma_block_size_bounds_any(order);
    let b = block_size(order);
    vstd::arithmetic::div_mod::lemma_fundamental_div_mod(start, 2 * b);
    let m = start / (2 * b);
    assert(start == (2 * m) * b) by (nonlinear_arith)
        requires
            start == (2 * b) * m + 0,
    ;
    vstd::arithmetic::div_mod::lemma_hoist_over_denominator(a - start, 2 * m, b as nat);
    assert((a - start) / b + 2 * m == a / b);
}

} // verus!
