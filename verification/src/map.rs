use vstd::prelude::*;
use crate::bits::{byte_bit, bytes_for_bits, lemma_full_and_empty_bytes, lemma_mask_clear, lemma_mask_set, lemma_mask_test};

verus! {

broadcast use vstd::layout::layout_of_primitives;

/// A bitmap with one bit per page of a given size; a set bit means the page
/// is not free at that size.
#[derive(Debug)]
pub struct MemBitMap {
    start_addr: usize,
    quantity: usize,
    size: usize,
    bytes: Vec<u8>,
}

impl View for MemBitMap {
    type V = Seq<bool>;

    /// Bit `i` of the map, for `i < quantity`.
    closed spec fn view(&self) -> Seq<bool> {
        Seq::new(self.quantity as nat, |i: int| byte_bit(self.bytes@[i / 8], i % 8))
    }
}

impl Default for MemBitMap {
    /// An empty map of no bits, placed at address `0`.
    fn default() -> (m: Self)
        ensures
            m.wf(),
            m@ == Seq::<bool>::empty(),
            m.spec_start_addr() == 0,
            m.spec_quantity() == 0,
            m.spec_size() == 0,
    {
        MemBitMap::new()
    }
}

impl MemBitMap {
    /// The bytes holding the bits, bit `i` in bit `i % 8` of byte `i / 8`;
    /// bits past the last one pad the last byte.
    pub closed spec fn spec_bytes(&self) -> Seq<u8> {
        self.bytes@
    }

    /// Address at which the map's bytes are placed.
    pub closed spec fn spec_start_addr(&self) -> usize {
        self.start_addr
    }

    /// Number of bits in the map.
    pub closed spec fn spec_quantity(&self) -> usize {
        self.quantity
    }

    /// Number of bytes the map occupies.
    pub closed spec fn spec_size(&self) -> usize {
        self.size
    }

    /// The map occupies exactly the bytes its bits need.
    pub closed spec fn wf(&self) -> bool {
        &&& self.bytes@.len() == self.size
        &&& self.size == bytes_for_bits(self.quantity as int)
    }

    pub proof fn lemma_view_len(&self)
        ensures
            self@.len() == self.spec_quantity(),
    {
    }

    /// An empty map of no bits, placed at address `0`.
    pub fn new() -> (m: Self)
        ensures
            m.wf(),
            m@ == Seq::<bool>::empty(),
            m.spec_start_addr() == 0,
            m.spec_quantity() == 0,
            m.spec_size() == 0,
            m.spec_bytes() == Seq::<u8>::empty(),
    {
        let m = MemBitMap { start_addr: 0, quantity: 0, size: 0, bytes: Vec::new() };
        assert(m@ =~= Seq::<bool>::empty());
        m
    }

    /// Places a map of `quantity` bits at `start_addr`, with every bit set.
    pub fn init(&mut self, start_addr: usize, quantity: usize)
        ensures
            final(self).wf(),
            final(self).spec_start_addr() == start_addr,
            final(self).spec_quantity() == quantity,
            final(self).spec_size() == bytes_for_bits(quantity as int),
            final(self)@ == Seq::new(quantity as nat, |i: int| true),
            final(self).spec_bytes() == Seq::new(
                bytes_for_bits(quantity as int) as nat,
                |j: int| u8::MAX,
            ),
    {
        self.quantity = quantity;
        self.start_addr = start_addr;
        let mut size: usize = (quantity / (u8::BITS as usize)) * core::mem::size_of::<u8>();
        if quantity % (u8::BITS as usize) != 0 {
            size += core::mem::size_of::<u8>();
        }
        let mut bytes: Vec<u8> = Vec::new();
        let mut n: usize = 0;
        while n < size
            invariant
                n <= size,
                bytes@.len() == n,
                forall|j: int| 0 <= j < n ==> bytes@[j] == u8::MAX,
            decreases size - n,
        {
            bytes.push(u8::MAX);
            n = n + 1;
        }
        self.bytes = bytes;
        self.size = size;
        proof {
            assert forall|i: int| 0 <= i < quantity implies #[trigger] self@[i] == true by {
                assert(i / 8 < self.bytes@.len());
                lemma_full_and_empty_bytes((i % 8) as u8);
            }
            assert(self@ =~= Seq::new(quantity as nat, |i: int| true));
            assert(self.bytes@ =~= Seq::new(bytes_for_bits(quantity as int) as nat, |j: int| u8::MAX));
        }
    }

    /// Whether bit `index` is set; an index past the end counts as set.
    pub fn is_set(&self, index: usize) -> (r: bool)
        requires
            self.wf(),
        ensures
            r == (index >= self.spec_quantity() || self@[index as int]),
    {
        if index >= self.quantity {
            return true;
        }
        let k: u8 = (index % (u8::BITS as usize)) as u8;
        let mask: u8 = 1u8 << k;
        let pos: usize = index / (u8::BITS as usize);
        proof {
            lemma_mask_test(self.bytes@[pos as int], k);
        }
        self.bytes[pos] & mask != 0
    }

    /// Sets bit `index`, which must be clear.
    pub fn set_bit(&mut self, index: usize)
        requires
            old(self).wf(),
            index < old(self).spec_quantity(),
            !old(self)@[index as int],
        ensures
            final(self).wf(),
            final(self)@ == old(self)@.update(index as int, true),
            final(self).spec_start_addr() == old(self).spec_start_addr(),
            final(self).spec_quantity() == old(self).spec_quantity(),
            final(self).spec_size() == old(self).spec_size(),
            final(self).spec_bytes() == old(self).spec_bytes().update(
                index as int / 8,
                old(self).spec_bytes()[index as int / 8] | (1u8 << ((index % 8) as u8)),
            ),
    {
        let k: u8 = (index % (u8::BITS as usize)) as u8;
        let mask: u8 = 1u8 << k;
        let pos: usize = index / (u8::BITS as usize);
        let b: u8 = self.bytes[pos];
        self.bytes.set(pos, b | mask);
        proof {
            let target = old(self)@.update(index as int, true);
            assert forall|i: int| 0 <= i < self@.len() implies #[trigger] self@[i] == target[i] by {
                if i / 8 == pos {
                    lemma_mask_set(b, k, (i % 8) as u8);
                } else {
                    assert(self.bytes@[i / 8] == old(self).bytes@[i / 8]);
                }
            }
            assert(self@ =~= target);
        }
    }

    /// Clears bit `index`, which must be set.
    pub fn clear_bit(&mut self, index: usize)
        requires
            old(self).wf(),
            index < old(self).spec_quantity(),
            old(self)@[index as int],
        ensures
            final(self).wf(),
            final(self)@ == old(self)@.update(index as int, false),
            final(self).spec_start_addr() == old(self).spec_start_addr(),
            final(self).spec_quantity() == old(self).spec_quantity(),
            final(self).spec_size() == old(self).spec_size(),
            final(self).spec_bytes() == old(self).spec_bytes().update(
                index as int / 8,
                old(self).spec_bytes()[index as int / 8] & !(1u8 << ((index % 8) as u8)),
            ),
    {
        let k: u8 = (index % (u8::BITS as usize)) as u8;
        let mask: u8 = 1u8 << k;
        let pos: usize = index / (u8::BITS as usize);
        let b: u8 = self.bytes[pos];
        self.bytes.set(pos, b & !mask);
        proof {
            let target = old(self)@.update(index as int, false);
            assert forall|i: int| 0 <= i < self@.len() implies #[trigger] self@[i] == target[i] by {
                if i / 8 == pos {
                    lemma_mask_clear(b, k, (i % 8) as u8);
                } else {
                    assert(self.bytes@[i / 8] == old(self).bytes@[i / 8]);
                }
            }
            assert(self@ =~= target);
        }
    }

    /// Number of bytes the map occupies.
    pub fn size(&self) -> (r: usize)
        ensures
            r == self.spec_size(),
    {
        self.size
    }
}

} // verus!
