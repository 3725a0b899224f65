use vstd::prelude::*;
use crate::bits::{
    byte_bit, bytes_for_bits, lemma_full_and_empty_bytes, lemma_mask_clear, lemma_mask_set,
    lemma_mask_test,
};

verus! {

/// Whether `n` is a power of two.
pub open spec fn is_power_of_two(n: int) -> bool
    decreases n,
{
    if n <= 0 {
        false
    } else if n == 1 {
        true
    } else {
        n % 2 == 0 && is_power_of_two(n / 2)
    }
}

/// `size` rounded up to a multiple of `align`.
pub open spec fn round_up(size: int, align: int) -> int {
    if size % align == 0 {
        size
    } else {
        (size / align + 1) * align
    }
}

/// A set of bit flags, all clear at first, placed at an address and padded
/// to a given alignment.
#[derive(Debug)]
pub struct BitSet {
    start_addr: usize,
    len: usize,
    size: usize,
    bytes: Vec<u8>,
}

impl View for BitSet {
    type V = Seq<bool>;

    /// Flag `i` of the set, for `i < len`.
    closed spec fn view(&self) -> Seq<bool> {
        Seq::new(self.len as nat, |i: int| byte_bit(self.bytes@[i / 8], i % 8))
    }
}

impl Default for BitSet {
    /// An empty set of no flags, placed at address `0`.
    fn default() -> (s: Self)
        ensures
            s.wf(),
            s@ == Seq::<bool>::empty(),
            s.spec_start_addr() == 0,
            s.spec_len() == 0,
            s.spec_size() == 0,
    {
        BitSet::new()
    }
}

impl BitSet {
    /// The bytes holding the bits, bit `i` in bit `i % 8` of byte `i / 8`;
    /// bits past the last one pad the last byte.
    pub closed spec fn spec_bytes(&self) -> Seq<u8> {
        self.bytes@
    }

    /// Address at which the set's bytes are placed.
    pub closed spec fn spec_start_addr(&self) -> usize {
        self.start_addr
    }

    /// Number of flags.
    pub closed spec fn spec_len(&self) -> usize {
        self.len
    }

    /// Number of bytes the set occupies, padding included.
    pub closed spec fn spec_size(&self) -> usize {
        self.size
    }

    /// The set's bytes hold all its flags.
    pub closed spec fn wf(&self) -> bool {
        &&& self.bytes@.len() == self.size
        &&& self.size >= bytes_for_bits(self.len as int)
    }

    pub proof fn lemma_view_len(&self)
        ensures
            self@.len() == self.spec_len(),
    {
    }

    /// An empty set of no flags, placed at address `0`.
    pub fn new() -> (s: Self)
        ensures
            s.wf(),
            s@ == Seq::<bool>::empty(),
            s.spec_start_addr() == 0,
            s.spec_len() == 0,
            s.spec_size() == 0,
            s.spec_bytes() == Seq::<u8>::empty(),
    {
        let s = BitSet { start_addr: 0, len: 0, size: 0, bytes: Vec::new() };
        assert(s@ =~= Seq::<bool>::empty());
        s
    }

    /// Places a set of `len` clear flags at `start_addr`; it takes the bytes
    /// its flags need, rounded up to a multiple of `align`, which must be a
    /// power of two with the rounded size at most `isize::MAX`.
    pub fn init(&mut self, start_addr: usize, len: usize, align: usize)
        requires
            is_power_of_two(align as int),
            round_up(bytes_for_bits(len as int), align as int) <= isize::MAX,
        ensures
            final(self).wf(),
            final(self).spec_start_addr() == start_addr,
            final(self).spec_len() == len,
            final(self).spec_size() == round_up(bytes_for_bits(len as int), align as int),
            final(self)@ == Seq::new(len as nat, |i: int| false),
            final(self).spec_bytes() == Seq::new(
                round_up(bytes_for_bits(len as int), align as int) as nat,
                |j: int| 0u8,
            ),
    {
        self.len = len;
        self.start_addr = start_addr;
        let size: usize = if len % (u8::BITS as usize) != 0 {
            len / (u8::BITS as usize) + 1
        } else {
            len / (u8::BITS as usize)
        };
        proof {
            lemma_power_of_two_positive(align as int);
        }
        let padded: usize = if size % align == 0 {
            size
        } else {
            (size / align + 1) * align
        };
        proof {
            if size % align != 0 {
                vstd::arithmetic::div_mod::lemma_fundamental_div_mod(size as int, align as int);
                let q = size as int / align as int;
                assert((q + 1) * align >= size) by (nonlinear_arith)
                    requires
                        size == align * q + size % align,
                        size % align < align,
                ;
            }
        }
        let mut bytes: Vec<u8> = Vec::new();
        let mut n: usize = 0;
        while n < padded
            invariant
                n <= padded,
                bytes@.len() == n,
                forall|j: int| 0 <= j < n ==> bytes@[j] == 0u8,
            decreases padded - n,
        {
            bytes.push(0u8);
            n = n + 1;
        }
        self.bytes = bytes;
        self.size = padded;
        proof {
            assert forall|i: int| 0 <= i < len implies #[trigger] self@[i] == false by {
                assert(i / 8 < self.bytes@.len());
                lemma_full_and_empty_bytes((i % 8) as u8);
            }
            assert(self@ =~= Seq::new(len as nat, |i: int| false));
            assert(self.bytes@ =~= Seq::new(self.size as nat, |j: int| 0u8));
        }
    }

    /// Whether flag `index` is set; an index past the end counts as set.
    pub fn is_set(&self, index: usize) -> (r: bool)
        requires
            self.wf(),
        ensures
            r == (index >= self.spec_len() || self@[index as int]),
    {
        if index >= self.len {
            return true;
        }
        let k: u8 = (index % (u8::BITS as usize)) as u8;
        let mask: u8 = 1u8 << k;
        let pos: usize = index / (u8::BITS as usize);
        proof {
            lemma_mask_test(self.bytes@[pos as int], k);
        }
        self.bytes[pos] & mask != 0
    }

    /// Sets flag `index`.
    pub fn set_bit(&mut self, index: usize)
        requires
            old(self).wf(),
            index < old(self).spec_len(),
        ensures
            final(self).wf(),
            final(self)@ == old(self)@.update(index as int, true),
            final(self).spec_start_addr() == old(self).spec_start_addr(),
            final(self).spec_len() == old(self).spec_len(),
            final(self).spec_size() == old(self).spec_size(),
            final(self).spec_bytes() == old(self).spec_bytes().update(
                index as int / 8,
                old(self).spec_bytes()[index as int / 8] | (1u8 << ((index % 8) as u8)),
            ),
    {
        let k: u8 = (index % (u8::BITS as usize)) as u8;
        let mask: u8 = 1u8 << k;
        let pos: usize = index / (u8::BITS as usize);
        let b: u8 = self.bytes[pos];
        self.bytes.set(pos, b | mask);
        proof {
            let target = old(self)@.update(index as int, true);
            assert forall|i: int| 0 <= i < self@.len() implies #[trigger] self@[i] == target[i] by {
                if i / 8 == pos {
                    lemma_mask_set(b, k, (i % 8) as u8);
                } else {
                    assert(self.bytes@[i / 8] == old(self).bytes@[i / 8]);
                }
            }
            assert(self@ =~= target);
        }
    }

    /// Clears flag `index`.
    pub fn clear_bit(&mut self, index: usize)
        requires
            old(self).wf(),
            index < old(self).spec_len(),
        ensures
            final(self).wf(),
            final(self)@ == old(self)@.update(index as int, false),
            final(self).spec_start_addr() == old(self).spec_start_addr(),
            final(self).spec_len() == old(self).spec_len(),
            final(self).spec_size() == old(self).spec_size(),
            final(self).spec_bytes() == old(self).spec_bytes().update(
                index as int / 8,
                old(self).spec_bytes()[index as int / 8] & !(1u8 << ((index % 8) as u8)),
            ),
    {
        let k: u8 = (index % (u8::BITS as usize)) as u8;
        let mask: u8 = 1u8 << k;
        let pos: usize = index / (u8::BITS as usize);
        let b: u8 = self.bytes[pos];
        self.bytes.set(pos, b & !mask);
        proof {
            let target = old(self)@.update(index as int, false);
            assert forall|i: int| 0 <= i < self@.len() implies #[trigger] self@[i] == target[i] by {
                if i / 8 == pos {
                    lemma_mask_clear(b, k, (i % 8) as u8);
                } else {
                    assert(self.bytes@[i / 8] == old(self).bytes@[i / 8]);
                }
            }
            assert(self@ =~= target);
        }
    }

    /// Number of bytes the set occupies, padding included.
    pub fn size(&self) -> (r: usize)
        ensures
            r == self.spec_size(),
    {
        self.size
    }
}

pub proof fn lemma_power_of_two_positive(n: int)
    requires
        is_power_of_two(n),
    ensures
        n > 0,
{
}

} // verus!
