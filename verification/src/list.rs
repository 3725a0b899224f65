use vstd::prelude::*;
use crate::bit_set::is_power_of_two;
use crate::lvl::LevelVec;

verus! {

/// Number of trailing zero bits of `x`, counted in a machine word.
pub open spec fn trailing_zeros(x: usize) -> u32
    decreases x,
{
    if x == 0 {
        usize::BITS
    } else if x % 2 == 1 {
        0
    } else {
        (1 + trailing_zeros(x / 2)) as u32
    }
}

/// A non-zero value below `2^k` has fewer than `k` trailing zeros.
proof fn lemma_trailing_zeros_bound(x: usize, k: nat)
    requires
        0 < x,
        x < vstd::arithmetic::power2::pow2(k),
    ensures
        trailing_zeros(x) < k,
    decreases x,
{
    if k == 0 {
        assert(vstd::arithmetic::power2::pow2(0) == 1) by {
            vstd::arithmetic::power2::lemma_pow2(0);
            vstd::arithmetic::power::lemma_pow0(2);
        }
    } else {
        vstd::arithmetic::power2::lemma_pow2_unfold(k);
        if x % 2 == 0 {
            lemma_trailing_zeros_bound(x / 2, (k - 1) as nat);
        }
    }
}

proof fn lemma_shl_double(k: usize)
    requires
        k + 1 < usize::BITS,
    ensures
        (1usize << ((k + 1) as usize)) as int == 2 * ((1usize << k) as int),
        (1usize << k) > 0,
{
    assert((1usize << ((k + 1) as usize)) as int == 2 * ((1usize << k) as int) && (1usize << k)
        > 0) by (bit_vector)
        requires
            k + 1 < usize::BITS,
    ;
}

/// A power of two that fits in a machine word is `1 << k` for its number `k`
/// of trailing zeros.
proof fn lemma_power_of_two_shift(n: usize)
    requires
        is_power_of_two(n as int),
    ensures
        trailing_zeros(n) < usize::BITS,
        n == 1usize << (trailing_zeros(n) as usize),
    decreases n,
{
    if n == 1 {
        assert(1usize << 0usize == 1usize) by (bit_vector);
    } else {
        let m = (n / 2) as usize;
        lemma_power_of_two_shift(m);
        let k = trailing_zeros(m) as usize;
        assert(n == 2 * m);
        assert(k + 1 < usize::BITS) by {
            if k + 1 >= usize::BITS {
                assert(k + 1 == usize::BITS);
                assert(m == 1usize << k);
                assert(m as int + m as int > (!0usize) as int) by (bit_vector)
                    requires
                        k + 1 == usize::BITS,
                        m == 1usize << k,
                ;
                assert((n as int) <= (!0usize) as int) by (bit_vector);
            }
        }
        lemma_shl_double(k);
    }
}

/// Clearing the bits below `1 << k` and shifting by `k` divides by `1 << k`.
proof fn lemma_mask_shift_divides(addr: usize, k: usize)
    requires
        k < usize::BITS,
    ensures
        (!(((1usize << k) - 1) as usize) & addr) >> k == addr / (1usize << k),
{
    assert((!(((1usize << k) - 1) as usize) & addr) >> k == addr >> k) by (bit_vector)
        requires
            k < usize::BITS,
    ;
    vstd::bits::lemma_usize_pow2_no_overflow(k as nat);
    vstd::bits::lemma_usize_shl_is_mul(1, k);
    vstd::bits::lemma_usize_shr_is_div(addr, k);
}

/// Trusted: `usize::trailing_zeros` of the standard library, which returns
/// the number of zero bits below the lowest set bit of its argument, and the
/// word size for zero. The contract claims exactly that, as spelled out by
/// `trailing_zeros`; it is not proved here.
pub assume_specification[ usize::trailing_zeros ](x: usize) -> (r: u32)
    ensures
        r == trailing_zeros(x),
;

/// A skip list of free blocks of one size.
pub struct SkipList {
    heads: LevelVec,
    max_level: usize,
    block_size: usize,
    num_of_free: usize,
}

impl SkipList {
    /// Number of levels.
    pub closed spec fn spec_max_level(&self) -> usize {
        self.max_level
    }

    /// Size of the blocks held.
    pub closed spec fn spec_block_size(&self) -> usize {
        self.block_size
    }

    /// Number of free blocks held.
    pub closed spec fn spec_num_of_free(&self) -> usize {
        self.num_of_free
    }

    /// The level heads.
    pub closed spec fn spec_heads(&self) -> LevelVec {
        self.heads
    }

    /// A list of no levels and blocks of size `0`.
    pub fn new() -> (l: Self)
        ensures
            l.spec_max_level() == 0,
            l.spec_block_size() == 0,
            l.spec_num_of_free() == 0,
            l.spec_heads().spec_max_level() == 0,
            l.spec_heads().spec_bottom() != 0,
    {
        SkipList { heads: LevelVec::dangling(), block_size: 0, num_of_free: 0, max_level: 0 }
    }

    /// Places the level heads at `heads_vec_addr`, which must not be zero,
    /// for blocks of `block_size` bytes.
    pub fn init(&mut self, heads_vec_addr: usize, block_size: usize, max_level: usize)
        requires
            heads_vec_addr != 0,
        ensures
            final(self).spec_heads().spec_bottom() == heads_vec_addr,
            final(self).spec_heads().spec_max_level() == max_level,
            final(self).spec_block_size() == block_size,
            final(self).spec_max_level() == max_level,
            final(self).spec_num_of_free() == old(self).spec_num_of_free(),
    {
        self.heads = LevelVec::new(heads_vec_addr, max_level);
        self.block_size = block_size;
        self.max_level = max_level;
    }

    /// Inserts the block at `address` of index `block_index`; it does not
    /// change the list yet.
    pub fn insert(&mut self, address: usize, block_index: usize)
        ensures
            *final(self) == *old(self),
    {
    }

    /// Pushes the block at `addr`; it does not change the list yet.
    pub fn push(&mut self, addr: usize)
        ensures
            *final(self) == *old(self),
    {
    }

    /// Index of the block holding `addr`: the address with its bits below the
    /// block size cleared, shifted down by the number of trailing zeros of the
    /// block size; for a power-of-two block size this is `addr / block_size`.
    pub fn block_index(&self, addr: usize) -> (r: usize)
        requires
            self.spec_block_size() > 0,
        ensures
            r == (!((self.spec_block_size() - 1) as usize) & addr) >> trailing_zeros(
                self.spec_block_size(),
            ),
            is_power_of_two(self.spec_block_size() as int) ==> r == addr / self.spec_block_size(),
    {
        proof {
            vstd::layout::unsigned_int_max_values();
            lemma_trailing_zeros_bound(self.block_size, usize::BITS as nat);
        }
        let power = self.block_size.trailing_zeros() as usize;
        proof {
            if is_power_of_two(self.block_size as int) {
                lemma_power_of_two_shift(self.block_size);
                lemma_mask_shift_divides(addr, power);
            }
        }
        (!(self.block_size - 1) & addr) >> power
    }
}

} // verus!
