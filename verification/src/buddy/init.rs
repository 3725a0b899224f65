use vstd::prelude::*;
use super::BuddyAllocator;
use crate::bits::bytes_for_bits;
use crate::map::MemBitMap;
use crate::queue::PageQueue;
use crate::sizes::{
    block_size, lemma_buddy_involution, lemma_aligned_down, lemma_block_size_bounds, lemma_block_size_positive,
    lemma_index_in_region, lemma_offset_index, max_block_size, page_size, MAX_ORDER, MIN_PAGE_SIZE,
};
use crate::state::{
    bitmaps_size, empty_queues, fill_accepts, fill_down, fill_queues, fill_up, lemma_blocks_end,
    lemma_bitmaps_size_mono, lemma_bitmaps_size_nonneg, lemma_ceil_count, lemma_init_queues_clear_of_bitmaps, lemma_mod_combine, lemma_queues_size_empty, lemma_queues_size_update,
    first_page, init_accepts, init_queues, laid_coalesced, top_aligned, top_count, top_start, BuddyView,
};

verus! {

impl BuddyAllocator {
    /// Index of the block of order `o` at `a` in the bitmap of its order.
    pub closed spec fn index_in_map(&self, o: int, a: int) -> int {
        (a - self.mem_start) / block_size(o)
    }

    /// Each bitmap bit is clear exactly at the index of a free block of its
    /// order; free blocks have distinct indices inside their bitmap.
    pub closed spec fn marks_ok(&self) -> bool {
        &&& self.page_queues@.len() == MAX_ORDER + 1
        &&& self.bit_maps@.len() == MAX_ORDER + 1
        &&& forall|o: int| 0 <= o <= MAX_ORDER ==> (#[trigger] self.page_queues@[o]).wf()
        &&& forall|o: int|
            0 <= o <= MAX_ORDER ==> (#[trigger] self.bit_maps@[o]).wf()
                && self.bit_maps@[o].spec_quantity() == self.total_size as int / block_size(o)
        &&& forall|o: int, j: int|
            0 <= o <= MAX_ORDER && 0 <= j < self@.queues[o].len() ==> self.mem_start
                <= #[trigger] self@.queues[o][j] && self.index_in_map(o, self@.queues[o][j] as int)
                < self.bit_maps@[o].spec_quantity()
        &&& forall|o: int, j1: int, j2: int|
            0 <= o <= MAX_ORDER && 0 <= j1 < self@.queues[o].len() && 0 <= j2 < self@.queues[o].len()
                && j1 != j2 ==> self.index_in_map(o, #[trigger] self@.queues[o][j1] as int)
                != self.index_in_map(o, #[trigger] self@.queues[o][j2] as int)
        &&& forall|o: int, i: int|
            0 <= o <= MAX_ORDER && 0 <= i < self.bit_maps@[o].spec_quantity() ==> #[trigger] self.bit_maps@[o]@[i]
                == !(exists|j: int|
                0 <= j < self@.queues[o].len() && #[trigger] self.index_in_map(
                    o,
                    self@.queues[o][j] as int,
                ) == i)
    }

    /// An allocator with no memory to hand out.
    pub fn new() -> (a: Self)
        ensures
            a.wf(),
            a@.queues == empty_queues(),
            a@.mem_start == 0,
            a@.total_size == 0,
            a@.available_size == 0,
            forall|o: int|
                0 <= o <= MAX_ORDER ==> (#[trigger] a.bitmap(o)).spec_size() == 0
                    && a.bitmap(o).spec_quantity() == 0 && a.bitmap(o).spec_start_addr() == 0,
    {
        let mut page_queues: Vec<PageQueue> = Vec::new();
        let mut bit_maps: Vec<MemBitMap> = Vec::new();
        let mut i: usize = 0;
        while i <= MAX_ORDER
            invariant
                i <= MAX_ORDER + 1,
                page_queues@.len() == i,
                bit_maps@.len() == i,
                forall|o: int| 0 <= o < i ==> (#[trigger] page_queues@[o])@ == Seq::<usize>::empty(),
                forall|o: int|
                    0 <= o < i ==> (#[trigger] bit_maps@[o]).wf() && bit_maps@[o].spec_quantity()
                        == 0 && bit_maps@[o].spec_size() == 0 && bit_maps@[o].spec_start_addr() == 0,
            decreases MAX_ORDER + 1 - i,
        {
            page_queues.push(PageQueue::new());
            bit_maps.push(MemBitMap::new());
            i = i + 1;
        }
        let a = BuddyAllocator {
            page_queues,
            bit_maps,
            mem_start: 0,
            total_size: 0,
            available_size: 0,
        };
        proof {
            lemma_block_size_bounds(MAX_ORDER as int);
            assert(a@.queues =~= empty_queues());
            assert forall|o: int| 0 <= o <= MAX_ORDER implies (#[trigger] a.page_queues@[o]).wf() by {
                assert(a.page_queues@[o]@ =~= Seq::<usize>::empty());
            }
            assert forall|o: int| 0 <= o <= MAX_ORDER implies (#[trigger] a.bit_maps@[o]).wf()
                && a.bit_maps@[o].spec_quantity() == a.total_size as int / block_size(o) by {
                lemma_block_size_positive(o);
            }
            assert(a@.free_size() == 0) by {
                crate::state::lemma_queues_size_empty(a@.queues, MAX_ORDER + 1);
            }
        }
        a
    }
}

impl BuddyAllocator {
    /// Each bitmap sits at its place after the bitmaps of the lower orders,
    /// with one bit per block of its order in the region.
    pub closed spec fn bitmaps_placed(&self, start_addr: int) -> bool {
        forall|o: int|
            0 <= o <= MAX_ORDER ==> {
                &&& (#[trigger] self.bit_maps@[o]).spec_start_addr() == start_addr + bitmaps_size(
                    self.total_size as int,
                    o,
                )
                &&& self.bit_maps@[o].spec_quantity() == self.total_size as int / block_size(o)
                &&& self.bit_maps@[o].spec_size() == bytes_for_bits(self.bit_maps@[o].spec_quantity() as int)
            }
    }

    /// Where the bitmaps sit: bitmap `o` starts `bitmaps_size(total, o)`
    /// bytes after `start_addr`, has one bit per block of order `o` in the
    /// region, and takes the bytes its bits need.
    pub proof fn lemma_bitmaps_placed(&self, start_addr: int)
        requires
            self.bitmaps_placed(start_addr),
        ensures
            forall|o: int|
                0 <= o <= MAX_ORDER ==> {
                    &&& (#[trigger] self.bitmap(o)).spec_start_addr() == start_addr + bitmaps_size(
                        self@.total_size,
                        o,
                    )
                    &&& self.bitmap(o).spec_quantity() == self@.total_size / block_size(o)
                    &&& self.bitmap(o).spec_size() == bytes_for_bits(
                        self.bitmap(o).spec_quantity() as int,
                    )
                },
    {
    }

    /// What the marks say: each free block lies in the region with its index
    /// in the bitmap of its order, and a bit is clear exactly when a free
    /// block of its order has its index.
    pub proof fn lemma_marks_ok(&self)
        requires
            self.marks_ok(),
        ensures
            forall|o: int|
                0 <= o <= MAX_ORDER ==> (#[trigger] self.bitmap(o)).wf()
                    && self.bitmap(o).spec_quantity() == self@.total_size / block_size(o)
                    && self.bitmap(o)@.len() == self.bitmap(o).spec_quantity(),
            forall|o: int, j: int|
                0 <= o <= MAX_ORDER && 0 <= j < self@.queues[o].len() ==> self@.mem_start
                    <= #[trigger] self@.queues[o][j] && (self@.queues[o][j] - self@.mem_start)
                    / block_size(o) < self.bitmap(o).spec_quantity(),
            forall|o: int, i: int|
                0 <= o <= MAX_ORDER && 0 <= i < self.bitmap(o).spec_quantity() ==> #[trigger] self.bitmap(o)@[i]
                    == !(exists|j: int|
                    0 <= j < self@.queues[o].len() && (#[trigger] self@.queues[o][j]
                        - self@.mem_start) / block_size(o) == i),
    {
        assert forall|o: int|
            0 <= o <= MAX_ORDER implies (#[trigger] self.bitmap(o)).wf()
            && self.bitmap(o).spec_quantity() == self@.total_size / block_size(o)
            && self.bitmap(o)@.len() == self.bitmap(o).spec_quantity() by {
            self.bit_maps@[o].lemma_view_len();
        }
        assert forall|o: int, i: int|
            0 <= o <= MAX_ORDER && 0 <= i < self.bitmap(o).spec_quantity() implies #[trigger] self.bitmap(o)@[i]
            == !(exists|j: int|
            0 <= j < self@.queues[o].len() && (#[trigger] self@.queues[o][j] - self@.mem_start)
                / block_size(o) == i) by {
            if exists|j: int|
                0 <= j < self@.queues[o].len() && (#[trigger] self@.queues[o][j] - self@.mem_start)
                    / block_size(o) == i {
                let j = choose|j: int|
                    0 <= j < self@.queues[o].len() && (#[trigger] self@.queues[o][j] - self@.mem_start)
                        / block_size(o) == i;
                assert(self.index_in_map(o, self@.queues[o][j] as int) == i);
            }
            if exists|j: int|
                0 <= j < self@.queues[o].len() && #[trigger] self.index_in_map(
                    o,
                    self@.queues[o][j] as int,
                ) == i {
                let j = choose|j: int|
                    0 <= j < self@.queues[o].len() && #[trigger] self.index_in_map(
                        o,
                        self@.queues[o][j] as int,
                    ) == i;
                assert((self@.queues[o][j] - self@.mem_start) / block_size(o) == i);
            }
        }
    }

    /// Puts the block of order `order` at `addr` on its free queue and clears
    /// its bit, while the allocator is being set up.
    fn init_push(&mut self, order: usize, addr: usize)
        requires
            old(self).marks_ok(),
            order <= MAX_ORDER,
            addr != 0,
            addr >= old(self).mem_start,
            old(self).index_in_map(order as int, addr as int) < old(self).bit_maps@[order as int].spec_quantity(),
            forall|j: int|
                0 <= j < old(self)@.queues[order as int].len() ==> old(self).index_in_map(
                    order as int,
                    #[trigger] old(self)@.queues[order as int][j] as int,
                ) != old(self).index_in_map(order as int, addr as int),
        ensures
            final(self).marks_ok(),
            final(self)@ == old(self)@.with_queue(
                order as int,
                old(self)@.queues[order as int].push(addr),
            ),
            forall|o: int|
                0 <= o <= MAX_ORDER ==> (#[trigger] final(self).bit_maps@[o]).spec_start_addr()
                    == old(self).bit_maps@[o].spec_start_addr() && final(self).bit_maps@[o].spec_size()
                    == old(self).bit_maps@[o].spec_size(),
    {
        let ghost o = order as int;
        let ghost q = old(self)@.queues[o];
        let off = self.page_offset(addr, order);
        proof {
            assert(q == old(self).page_queues@[o]@);
            if q.contains(addr) {
                let j = choose|j: int| 0 <= j < q.len() && q[j] == addr;
                assert(old(self).index_in_map(o, q[j] as int) != old(self).index_in_map(o, addr as int));
            }
            old(self).bit_maps@[o].lemma_view_len();
            assert(!(exists|j: int|
                0 <= j < q.len() && #[trigger] old(self).index_in_map(o, q[j] as int) == off));
        }
        self.page_queues[order].enqueue(addr);
        self.bit_maps[order].clear_bit(off);
        proof {
            let nq = q.push(addr);
            assert(self@.queues =~= old(self)@.with_queue(o, nq).queues);
            assert(self@ == old(self)@.with_queue(o, nq));
            assert forall|p: int| 0 <= p <= MAX_ORDER implies (#[trigger] self.page_queues@[p]).wf() by {
                if p != o {
                    assert(self.page_queues@[p] == old(self).page_queues@[p]);
                }
            }
            assert forall|p: int|
                0 <= p <= MAX_ORDER implies (#[trigger] self.bit_maps@[p]).wf()
                && self.bit_maps@[p].spec_quantity() == self.total_size as int / block_size(p) by {
                if p != o {
                    assert(self.bit_maps@[p] == old(self).bit_maps@[p]);
                }
            }
            assert forall|p: int, j: int|
                0 <= p <= MAX_ORDER && 0 <= j < self@.queues[p].len() implies self.mem_start
                <= #[trigger] self@.queues[p][j] && self.index_in_map(p, self@.queues[p][j] as int)
                < self.bit_maps@[p].spec_quantity() by {
                if !(p == o && j == q.len()) {
                    assert(self@.queues[p][j] == old(self)@.queues[p][j]);
                    assert(self.bit_maps@[p].spec_quantity() == old(self).bit_maps@[p].spec_quantity());
                }
            }
            assert forall|p: int, j1: int, j2: int|
                0 <= p <= MAX_ORDER && 0 <= j1 < self@.queues[p].len() && 0 <= j2 < self@.queues[p].len()
                    && j1 != j2 implies self.index_in_map(p, #[trigger] self@.queues[p][j1] as int)
                != self.index_in_map(p, #[trigger] self@.queues[p][j2] as int) by {
                if p == o {
                    if j1 < q.len() {
                        assert(self@.queues[p][j1] == q[j1]);
                    }
                    if j2 < q.len() {
                        assert(self@.queues[p][j2] == q[j2]);
                    }
                } else {
                    assert(self@.queues[p] == old(self)@.queues[p]);
                }
            }
            assert forall|p: int, i: int|
                0 <= p <= MAX_ORDER && 0 <= i < self.bit_maps@[p].spec_quantity() implies #[trigger] self.bit_maps@[p]@[i]
                == !(exists|j: int|
                0 <= j < self@.queues[p].len() && #[trigger] self.index_in_map(
                    p,
                    self@.queues[p][j] as int,
                ) == i) by {
                self.bit_maps@[p].lemma_view_len();
                old(self).bit_maps@[p].lemma_view_len();
                if p == o {
                    if i == off {
                        assert(self.index_in_map(p, self@.queues[p][q.len() as int] as int) == i);
                    } else {
                        if exists|j: int|
                            0 <= j < self@.queues[p].len() && #[trigger] self.index_in_map(
                                p,
                                self@.queues[p][j] as int,
                            ) == i {
                            let j = choose|j: int|
                                0 <= j < self@.queues[p].len() && #[trigger] self.index_in_map(
                                    p,
                                    self@.queues[p][j] as int,
                                ) == i;
                            assert(j < q.len());
                            assert(self@.queues[p][j] == q[j]);
                            assert(old(self).index_in_map(p, q[j] as int) == i);
                        }
                        if exists|j: int|
                            0 <= j < q.len() && #[trigger] old(self).index_in_map(p, q[j] as int) == i {
                            let j = choose|j: int|
                                0 <= j < q.len() && #[trigger] old(self).index_in_map(p, q[j] as int) == i;
                            assert(self@.queues[p][j] == q[j]);
                            assert(self.index_in_map(p, self@.queues[p][j] as int) == i);
                        }
                    }
                } else {
                    assert(self.bit_maps@[p] == old(self).bit_maps@[p]);
                    assert(self@.queues[p] == old(self)@.queues[p]);
                    if exists|j: int|
                        0 <= j < self@.queues[p].len() && #[trigger] self.index_in_map(
                            p,
                            self@.queues[p][j] as int,
                        ) == i {
                        let j = choose|j: int|
                            0 <= j < self@.queues[p].len() && #[trigger] self.index_in_map(
                                p,
                                self@.queues[p][j] as int,
                            ) == i;
                        assert(old(self).index_in_map(p, old(self)@.queues[p][j] as int) == i);
                    }
                    if exists|j: int|
                        0 <= j < old(self)@.queues[p].len() && #[trigger] old(self).index_in_map(
                            p,
                            old(self)@.queues[p][j] as int,
                        ) == i {
                        let j = choose|j: int|
                            0 <= j < old(self)@.queues[p].len() && #[trigger] old(self).index_in_map(
                                p,
                                old(self)@.queues[p][j] as int,
                            ) == i;
                        assert(self.index_in_map(p, self@.queues[p][j] as int) == i);
                    }
                }
            }
        }
    }

    /// Places the bitmaps one after the other from `start_addr` on, every bit
    /// set.
    fn init_bitmap(&mut self, start_addr: usize)
        requires
            old(self).page_queues@.len() == MAX_ORDER + 1,
            old(self).bit_maps@.len() == MAX_ORDER + 1,
            forall|o: int| 0 <= o <= MAX_ORDER ==> (#[trigger] old(self).page_queues@[o]).wf(),
            forall|o: int| 0 <= o <= MAX_ORDER ==> #[trigger] old(self)@.queues[o].len() == 0,
            start_addr + bitmaps_size(old(self).total_size as int, MAX_ORDER + 1) <= usize::MAX,
        ensures
            final(self).marks_ok(),
            final(self).bitmaps_placed(start_addr as int),
            final(self)@ == old(self)@,
    {
        let ghost total = self.total_size as int;
        let mut addr = start_addr;
        let mut order: usize = 0;
        while order <= MAX_ORDER
            invariant
                order <= MAX_ORDER + 1,
                self@ == old(self)@,
                self.total_size == old(self).total_size,
                self.mem_start == old(self).mem_start,
                self.page_queues == old(self).page_queues,
                self.bit_maps@.len() == MAX_ORDER + 1,
                total == self.total_size as int,
                start_addr + bitmaps_size(total, MAX_ORDER + 1) <= usize::MAX,
                addr as int == start_addr + bitmaps_size(total, order as int),
                forall|o: int|
                    0 <= o < order ==> {
                        &&& (#[trigger] self.bit_maps@[o]).wf()
                        &&& self.bit_maps@[o].spec_start_addr() == start_addr + bitmaps_size(total, o)
                        &&& self.bit_maps@[o].spec_quantity() == total / block_size(o)
                        &&& self.bit_maps@[o].spec_size() == bytes_for_bits(total / block_size(o))
                        &&& self.bit_maps@[o]@ == Seq::new(
                            self.bit_maps@[o].spec_quantity() as nat,
                            |i: int| true,
                        )
                    },
            decreases MAX_ORDER + 1 - order,
        {
            let page_size = page_size(order);
            proof {
                lemma_block_size_positive(order as int);
                lemma_bitmaps_size_mono(total, order as int + 1, MAX_ORDER + 1);
            }
            let page_num = self.total_size / page_size;
            self.bit_maps[order].init(addr, page_num);
            addr = addr + self.bit_maps[order].size();
            order = order + 1;
        }
        proof {
            assert forall|o: int| 0 <= o <= MAX_ORDER implies (#[trigger] self.bit_maps@[o]).wf()
                && self.bit_maps@[o].spec_quantity() == self.total_size as int / block_size(o) by {
            }
            assert forall|o: int, i: int|
                0 <= o <= MAX_ORDER && 0 <= i < self.bit_maps@[o].spec_quantity() implies #[trigger] self.bit_maps@[o]@[i]
                == !(exists|j: int|
                0 <= j < self@.queues[o].len() && #[trigger] self.index_in_map(
                    o,
                    self@.queues[o][j] as int,
                ) == i) by {
                assert(self@.queues[o].len() == 0);
            }
            assert forall|o: int| 0 <= o <= MAX_ORDER implies (#[trigger] self.page_queues@[o]).wf() by {
                assert(self.page_queues@[o] == old(self).page_queues@[o]);
            }
        }
    }
}

impl BuddyAllocator {
    /// Lays free blocks from `start_addr` to the end of the region: the pages
    /// below the first boundary of a largest block from the top down, each
    /// block the largest that fits, then largest blocks one after the other.
    fn init_queues(&mut self, start_addr: usize)
        requires
            old(self).marks_ok(),
            forall|o: int| 0 <= o <= MAX_ORDER ==> #[trigger] old(self)@.queues[o].len() == 0,
            old(self).mem_start % MIN_PAGE_SIZE == 0,
            start_addr % MIN_PAGE_SIZE == 0,
            old(self)@.end() <= usize::MAX,
            start_addr <= old(self)@.end(),
            fill_accepts(old(self)@.mem_start, old(self)@.total_size, start_addr as int),
        ensures
            final(self).marks_ok(),
            final(self)@ == (BuddyView {
                queues: fill_queues(old(self)@.mem_start, old(self)@.total_size, start_addr as int),
                ..old(self)@
            }),
            forall|o: int|
                0 <= o <= MAX_ORDER ==> (#[trigger] final(self).bit_maps@[o]).spec_start_addr()
                    == old(self).bit_maps@[o].spec_start_addr() && final(self).bit_maps@[o].spec_size()
                    == old(self).bit_maps@[o].spec_size(),
            final(self)@.disjoint(),
            laid_coalesced(old(self)@.mem_start, start_addr as int) ==> final(self)@.coalesced(),
            top_aligned(old(self)@.mem_start, start_addr as int) ==> {
                &&& final(self)@.placed()
                &&& final(self)@.covers(start_addr as int, final(self)@.end())
                &&& final(self)@.free_size() == final(self)@.end() - start_addr
            },
    {
        let ghost v0 = self@;
        let ghost ms = self.mem_start as int;
        let ghost total = self.total_size as int;
        let ghost end = ms + total;
        let ghost ps = start_addr as int;
        let ghost maxb = max_block_size();
        let mut page_addr = start_addr;
        let max_page_size = page_size(MAX_ORDER);
        proof {
            lemma_block_size_bounds(MAX_ORDER as int);
            assert(self@.queues =~~= empty_queues());
            self@.lemma_covers_empty(ps);
            lemma_queues_size_empty(self@.queues, MAX_ORDER + 1);
            assert(self@.disjoint());
        }
        if page_addr % max_page_size != 0 {
            let limit = page_addr;
            page_addr = ((page_addr - self.mem_start) / max_page_size + 1) * max_page_size
                + self.mem_start;
            let ghost a = page_addr as int;
            proof {
                let q = (ps - ms) / maxb;
                vstd::arithmetic::div_mod::lemma_fundamental_div_mod(ps - ms, maxb);
                vstd::arithmetic::div_mod::lemma_mod_bound(ps - ms, maxb);
                assert(a - ms == (q + 1) * maxb);
                assert(a > ps) by (nonlinear_arith)
                    requires
                        a - ms == (q + 1) * maxb,
                        ps - ms == maxb * q + (ps - ms) % maxb,
                        (ps - ms) % maxb < maxb,
                ;
                vstd::arithmetic::div_mod::lemma_mod_multiples_basic(q + 1, maxb);
                lemma_aligned_down(a - ms, MAX_ORDER - 1, MAX_ORDER as int);
                lemma_aligned_down(a - ms, 0, MAX_ORDER as int);
                lemma_mod_combine(a - ms, ms, 4096);
                assert(a == (a - ms) + ms);
                if (ps - ms) % maxb != 0 {
                    assert(a - ps < maxb);
                    lemma_block_size_bounds(MAX_ORDER - 1);
                }
            }
            let mut addr_top = page_addr;
            let mut order: usize = MAX_ORDER - 1;
            while addr_top > limit
                invariant
                    self.marks_ok(),
                    self.mem_start == v0.mem_start,
                    self.total_size == v0.total_size,
                    self.available_size == v0.available_size,
                    self@.queues.len() == MAX_ORDER + 1,
                    forall|o: int|
                        0 <= o <= MAX_ORDER ==> (#[trigger] self.bit_maps@[o]).spec_start_addr()
                            == old(self).bit_maps@[o].spec_start_addr()
                            && self.bit_maps@[o].spec_size() == old(self).bit_maps@[o].spec_size(),
                    ms == self.mem_start as int,
                    total == self.total_size as int,
                    end == ms + total,
                    end <= usize::MAX,
                    maxb == max_block_size(),
                    maxb == 4194304,
                    limit as int == ps,
                    ps % 4096 == 0,
                    ms % 4096 == 0,
                    ms <= ps < a <= end,
                    ps > 0,
                    page_addr as int == a,
                    (a - ms) % maxb == 0,
                    ps <= addr_top <= a,
                    order <= MAX_ORDER - 1,
                    (addr_top - ms) % block_size(order as int) == 0,
                    addr_top % 4096 == 0,
                    fill_down(empty_queues(), a, ps, MAX_ORDER - 1) == fill_down(
                        self@.queues,
                        addr_top as int,
                        ps,
                        order as int,
                    ),
                    self@.queues[MAX_ORDER as int].len() == 0,
                    forall|p: int, j: int|
                        0 <= p <= MAX_ORDER && 0 <= j < self@.queues[p].len() ==> self@.fits(
                            p,
                            #[trigger] self@.queues[p][j] as int,
                        ) && addr_top <= self@.queues[p][j] && self@.queues[p][j] + block_size(p)
                            <= a,
                    self@.disjoint(),
                    self@.covers(addr_top as int, a),
                    self@.free_size() == a - addr_top,
                    (ps - ms) % maxb != 0 ==> {
                        &&& addr_top - ps < block_size(order + 1)
                        &&& forall|p: int| 0 <= p < order ==> #[trigger] self@.queues[p].len() == 0
                        &&& forall|p: int|
                            order <= p < MAX_ORDER ==> #[trigger] self@.queues[p].len() <= 1
                        &&& self@.queues[order as int].len() == 1 ==> addr_top - ps < block_size(
                            order as int,
                        )
                    },
                decreases addr_top - limit, order,
            {
                let ghost o = order as int;
                let page_size = page_size(order);
                proof {
                    lemma_block_size_bounds(o);
                }
                proof {
                    let b = block_size(o);
                    if addr_top - ms < b {
                        vstd::arithmetic::div_mod::lemma_small_mod((addr_top - ms) as nat, b as nat);
                    }
                }
                let addr = addr_top - page_size;
                if addr < limit {
                    proof {
                        if o == 0 {
                            assert(block_size(0) == 4096);
                            lemma_mod_combine(addr_top as int, ps, 4096);
                            vstd::arithmetic::div_mod::lemma_mod_bound(addr_top - ps, 4096);
                            assert(false);
                        }
                        lemma_aligned_down(addr_top - ms, o - 1, o);
                        lemma_block_size_bounds(o - 1);
                    }
                    order = order - 1;
                    continue;
                }
                let ghost before = self@;
                proof {
                    let b = block_size(o);
                    vstd::arithmetic::div_mod::lemma_mod_self_0(b);
                    lemma_mod_combine(addr_top - ms, b, b);
                    assert(before.fits(o, addr as int));
                    lemma_offset_index(total, b, addr - ms);
                    assert forall|j: int|
                        0 <= j < before.queues[o].len() implies self.index_in_map(
                        o,
                        #[trigger] before.queues[o][j] as int,
                    ) != self.index_in_map(o, addr as int) by {
                        let x = before.queues[o][j] as int;
                        assert(before.fits(o, x));
                        lemma_offset_index(total, b, x - ms);
                    }
                    assert(before.queues[o] == self.page_queues@[o]@);
                }
                self.init_push(order, addr);
                proof {
                    let b = block_size(o);
                    assert forall|p: int, j: int|
                        0 <= p <= MAX_ORDER && 0 <= j < before.queues[p].len() implies #[trigger] BuddyView::apart(
                        o,
                        addr as int,
                        p,
                        before.queues[p][j] as int,
                    ) by {
                        assert(before.fits(p, before.queues[p][j] as int));
                    }
                    before.lemma_disjoint_push(o, addr);
                    before.lemma_covers_push(o, addr, addr_top as int, a);
                    lemma_queues_size_update(before.queues, o, before.queues[o].push(addr), MAX_ORDER + 1);
                    let d = before.queues[o].push(addr).len() - before.queues[o].len();
                    assert(d == 1);
                    assert(d * b == b) by (nonlinear_arith)
                        requires
                            d == 1,
                    ;
                    assert(self@.queues == before.queues.update(o, before.queues[o].push(addr)));
                    assert forall|p: int, j: int|
                        0 <= p <= MAX_ORDER && 0 <= j < self@.queues[p].len() implies self@.fits(
                        p,
                        #[trigger] self@.queues[p][j] as int,
                    ) && addr <= self@.queues[p][j] && self@.queues[p][j] + block_size(p) <= a by {
                        if !(p == o && j == before.queues[o].len()) {
                            assert(self@.queues[p][j] == before.queues[p][j]);
                        }
                    }
                    lemma_mod_combine(addr_top as int, b, 4096);
                    if (ps - ms) % maxb != 0 {
                        assert(before.queues[o].len() == 0) by {
                            if before.queues[o].len() != 0 {
                                assert(before.queues[o].len() == 1);
                            }
                        }
                        assert forall|p: int| 0 <= p < o implies #[trigger] self@.queues[p].len() == 0 by {
                            assert(self@.queues[p] == before.queues[p]);
                        }
                        assert forall|p: int| o <= p < MAX_ORDER implies #[trigger] self@.queues[p].len() <= 1 by {
                            if p != o {
                                assert(self@.queues[p] == before.queues[p]);
                            }
                        }
                    }
                }
                addr_top = addr;
            }
            proof {
                assert(addr_top == limit);
                assert(self@.queues == fill_down(empty_queues(), a, ps, MAX_ORDER - 1));
                if (ps - ms) % maxb != 0 {
                    assert forall|o: int, i: int|
                        0 <= o < MAX_ORDER && 0 <= i < self@.queues[o].len() implies !self@.is_free(
                        o,
                        self@.buddy_in_region(#[trigger] self@.queues[o][i] as int, o),
                    ) by {
                        let x = self@.queues[o][i];
                        assert(self@.fits(o, x as int));
                        lemma_block_size_positive(o);
                        let b = self@.buddy_in_region(x as int, o);
                        lemma_buddy_involution(x - ms, o);
                        assert(b == x + block_size(o) || b == x - block_size(o));
                        assert(self@.queues[o].len() <= 1);
                        if self@.is_free(o, b) {
                            let j = choose|j: int|
                                0 <= j < self@.queues[o].len() && self@.queues[o][j] == b as usize;
                            assert(i == 0 && j == 0);
                            assert(b as usize == x);
                        }
                    }
                }
            }
        }
        let ghost a = page_addr as int;
        let ghost count = top_count(a, end);
        let ghost low = self@.queues;
        let ghost mut k: int = 0;
        proof {
            if ps % maxb == 0 {
                assert(self@.coalesced());
            }
            assert(a == top_start(ms, ps));
            assert(fill_queues(ms, total, ps) == fill_up(low, a, count));
            // the largest blocks start inside the region's bitmap and the
            // address space
            if ps % maxb != 0 {
                let c = (end - a) / maxb;
                let q0 = (a - ms) / maxb;
                vstd::arithmetic::div_mod::lemma_fundamental_div_mod(end - a, maxb);
                vstd::arithmetic::div_mod::lemma_fundamental_div_mod(a - ms, maxb);
                if a < end {
                    assert(count == c) by {
                        vstd::arithmetic::div_mod::lemma_div_multiples_vanish_fancy(c, maxb - 1, maxb);
                        assert(end - a + maxb - 1 == maxb * c + (maxb - 1));
                        assert((maxb - 1) / maxb == 0);
                    }
                } else {
                    assert(c == 0);
                }
                assert(total == (q0 + c) * maxb) by (nonlinear_arith)
                    requires
                        end - a == maxb * c + 0,
                        a - ms == maxb * q0 + 0,
                        total == end - ms,
                ;
                vstd::arithmetic::div_mod::lemma_div_multiples_vanish(q0 + c, maxb);
                assert((q0 + c) * maxb == maxb * (q0 + c)) by (nonlinear_arith);
                assert(a + count * maxb == end) by (nonlinear_arith)
                    requires
                        end - a == maxb * c + 0,
                        count == c,
                ;
            } else {
                if a < end {
                } else {
                    assert(count == 0);
                }
            }
        }
        while page_addr < self.mem_start + self.total_size
            invariant
                self.marks_ok(),
                self.mem_start == v0.mem_start,
                self.total_size == v0.total_size,
                self.available_size == v0.available_size,
                self@.queues.len() == MAX_ORDER + 1,
                forall|o: int|
                    0 <= o <= MAX_ORDER ==> (#[trigger] self.bit_maps@[o]).spec_start_addr()
                        == old(self).bit_maps@[o].spec_start_addr() && self.bit_maps@[o].spec_size()
                        == old(self).bit_maps@[o].spec_size(),
                ms == self.mem_start as int,
                total == self.total_size as int,
                end == ms + total,
                end <= usize::MAX,
                maxb == max_block_size(),
                maxb == 4194304,
                ps <= a,
                max_page_size as int == maxb,
                a < end ==> a != 0 && a >= ms,
                (a - ms) / maxb + count <= total / maxb,
                a + count * maxb <= usize::MAX,
                count == top_count(a, end),
                0 <= k <= count,
                page_addr as int == a + k * maxb,
                fill_queues(ms, total, ps) == fill_up(self@.queues, page_addr as int, count - k),
                self@.queues[MAX_ORDER as int].len() == k,
                forall|j: int|
                    0 <= j < k ==> #[trigger] self@.queues[MAX_ORDER as int][j] == a + j * maxb,
                forall|p: int, j: int|
                    0 <= p < MAX_ORDER && 0 <= j < self@.queues[p].len() ==> #[trigger] self@.queues[p][j]
                        + block_size(p) <= a && self@.fits(p, self@.queues[p][j] as int),
                (a - ms) % maxb == 0 ==> forall|j: int|
                    0 <= j < k ==> self@.fits(
                        MAX_ORDER as int,
                        #[trigger] self@.queues[MAX_ORDER as int][j] as int,
                    ),
                self@.disjoint(),
                self@.covers(ps, page_addr as int),
                self@.free_size() == page_addr - ps,
                laid_coalesced(ms, ps) ==> self@.coalesced(),
            decreases usize::MAX - page_addr,
        {
            let ghost before = self@;
            let ghost q0 = (a - ms) / maxb;
            proof {
                if a < end {
                    lemma_ceil_count(end - a, maxb, k);
                }
                assert(k < count);
                vstd::arithmetic::div_mod::lemma_hoist_over_denominator(a - ms, k, maxb as nat);
                assert(self.index_in_map(MAX_ORDER as int, page_addr as int) == q0 + k);
                assert forall|j: int|
                    0 <= j < before.queues[MAX_ORDER as int].len() implies self.index_in_map(
                    MAX_ORDER as int,
                    #[trigger] before.queues[MAX_ORDER as int][j] as int,
                ) != self.index_in_map(MAX_ORDER as int, page_addr as int) by {
                    vstd::arithmetic::div_mod::lemma_hoist_over_denominator(a - ms, j, maxb as nat);
                }
                assert(before.queues[MAX_ORDER as int] == self.page_queues@[MAX_ORDER as int]@);
                assert((k + 1) * maxb <= count * maxb) by (nonlinear_arith)
                    requires
                        k + 1 <= count,
                        maxb > 0,
                ;
                assert(page_addr + maxb == a + (k + 1) * maxb) by (nonlinear_arith)
                    requires
                        page_addr == a + k * maxb,
                ;
            }
            self.init_push(MAX_ORDER, page_addr);
            proof {
                let m = MAX_ORDER as int;
                if laid_coalesced(ms, ps) {
                    assert forall|o: int, i: int|
                        0 <= o < MAX_ORDER && 0 <= i < self@.queues[o].len() implies !self@.is_free(
                        o,
                        self@.buddy_in_region(#[trigger] self@.queues[o][i] as int, o),
                    ) by {
                        assert(self@.queues[o] == before.queues[o]);
                        assert(!before.is_free(o, before.buddy_in_region(before.queues[o][i] as int, o)));
                    }
                }
                assert forall|p: int, j: int|
                    0 <= p <= MAX_ORDER && 0 <= j < before.queues[p].len() implies #[trigger] BuddyView::apart(
                    m,
                    page_addr as int,
                    p,
                    before.queues[p][j] as int,
                ) by {
                    if p == m {
                        assert(before.queues[m][j] == a + j * maxb);
                        assert(j * maxb + maxb <= k * maxb) by (nonlinear_arith)
                            requires
                                j < k,
                                maxb > 0,
                        ;
                    }
                }
                before.lemma_disjoint_push(m, page_addr);
                before.lemma_covers_push(m, page_addr, ps, page_addr as int);
                lemma_queues_size_update(before.queues, m, before.queues[m].push(page_addr), MAX_ORDER + 1);
                let d = before.queues[m].push(page_addr).len() - before.queues[m].len();
                assert(d == 1);
                assert(d * maxb == maxb) by (nonlinear_arith)
                    requires
                        d == 1,
                ;
                assert(self@.queues == before.queues.update(m, before.queues[m].push(page_addr)));
                if (a - ms) % maxb == 0 {
                    let q0 = (a - ms) / maxb;
                    vstd::arithmetic::div_mod::lemma_fundamental_div_mod(a - ms, maxb);
                    lemma_blocks_end(q0, count, maxb, total);
                    assert(q0 * maxb == a - ms) by (nonlinear_arith)
                        requires
                            a - ms == maxb * q0 + 0,
                    ;
                    vstd::arithmetic::div_mod::lemma_mod_multiples_basic(q0 + k, maxb);
                    assert((q0 + k) * maxb == page_addr - ms) by (nonlinear_arith)
                        requires
                            page_addr == a + k * maxb,
                            q0 * maxb == a - ms,
                    ;
                    assert(self@.fits(m, page_addr as int));
                }
                assert forall|j: int| 0 <= j < k + 1 implies #[trigger] self@.queues[m][j] == a + j * maxb by {
                    if j < k {
                        assert(self@.queues[m][j] == before.queues[m][j]);
                    }
                }
                assert forall|p: int, j: int|
                    0 <= p < MAX_ORDER && 0 <= j < self@.queues[p].len() implies #[trigger] self@.queues[p][j]
                    + block_size(p) <= a && self@.fits(p, self@.queues[p][j] as int) by {
                    assert(self@.queues[p] == before.queues[p]);
                }
                if (a - ms) % maxb == 0 {
                    assert forall|j: int| 0 <= j < k + 1 implies self@.fits(
                        m,
                        #[trigger] self@.queues[m][j] as int,
                    ) by {
                        if j < k {
                            assert(self@.queues[m][j] == before.queues[m][j]);
                        }
                    }
                }
                k = k + 1;
            }
            page_addr = page_addr + max_page_size;
        }
        proof {
            if a < end {
                lemma_ceil_count(end - a, maxb, k);
            }
            assert(k == count);
            assert(self@.queues == fill_queues(ms, total, ps));
            assert(self@ == (BuddyView { queues: fill_queues(ms, total, ps), ..v0 }));
            if (a - ms) % maxb == 0 {
                let q0 = (a - ms) / maxb;
                vstd::arithmetic::div_mod::lemma_fundamental_div_mod(a - ms, maxb);
                lemma_blocks_end(q0, count, maxb, total);
                assert(q0 * maxb == a - ms) by (nonlinear_arith)
                    requires
                        a - ms == maxb * q0 + 0,
                ;
                assert(page_addr == end);
                assert forall|o: int|
                    0 <= o <= MAX_ORDER implies #[trigger] self@.queues[o].no_duplicates()
                    && !self@.queues[o].contains(0) by {
                    assert(self@.queues[o] == self.page_queues@[o]@);
                }
                assert forall|o: int, i: int|
                    0 <= o <= MAX_ORDER && 0 <= i < self@.queues[o].len() implies self@.fits(
                    o,
                    #[trigger] self@.queues[o][i] as int,
                ) by {
                    if o == MAX_ORDER {
                    }
                }
            }
        }
    }
}

impl BuddyAllocator {
    /// With every free block aligned inside the region, bits clear at the
    /// indices of free blocks are bits clear exactly for the free blocks.
    proof fn lemma_marks_to_layout(&self)
        requires
            self.marks_ok(),
            self@.placed(),
        ensures
            self.layout_ok(),
    {
        assert forall|o: int, i: int|
            0 <= o <= MAX_ORDER && 0 <= i < self.bit_maps@[o].spec_quantity() implies #[trigger] self.bit_maps@[o]@[i]
            == !self@.is_free(o, self.mem_start + i * block_size(o)) by {
            let b = block_size(o);
            let ms = self.mem_start as int;
            let x = ms + i * b;
            lemma_block_size_positive(o);
            lemma_index_in_region(self.total_size as int, b, i);
            let q = self@.queues[o];
            if exists|j: int| 0 <= j < q.len() && #[trigger] self.index_in_map(o, q[j] as int) == i {
                let j = choose|j: int| 0 <= j < q.len() && #[trigger] self.index_in_map(o, q[j] as int) == i;
                assert(self@.fits(o, q[j] as int));
                lemma_offset_index(self.total_size as int, b, q[j] - ms);
                assert(q[j] as int == x);
                assert(q.contains(x as usize));
            }
            if q.contains(x as usize) {
                let j = choose|j: int| 0 <= j < q.len() && q[j] == x as usize;
                vstd::arithmetic::div_mod::lemma_div_multiples_vanish(i, b);
                assert(b * i == i * b) by (nonlinear_arith);
                assert(self.index_in_map(o, q[j] as int) == i);
            }
        }
    }

    /// Sets the allocator up on the region of `total_size` bytes from
    /// `mem_start`, placing its bitmaps from `start_addr` on: every bit is set,
    /// then the pages from the first page after the bitmaps to the end of the
    /// region are laid out as free blocks.
    ///
    /// Blocks are laid on address boundaries of their size, while the bitmaps
    /// count blocks from `mem_start`. The allocator is well formed afterwards
    /// only when the largest blocks laid start on a boundary of a largest block
    /// counted from `mem_start` (`top_aligned`). No two free buddies are left
    /// below the largest order when the pages below the first largest block
    /// are fewer than a largest block (`laid_coalesced`), which holds in
    /// particular when `mem_start` lies on a boundary of a largest block.
    pub fn init(&mut self, mem_start: usize, total_size: usize, start_addr: usize)
        requires
            old(self).wf(),
            forall|o: int| 0 <= o <= MAX_ORDER ==> #[trigger] old(self)@.queues[o].len() == 0,
            init_accepts(mem_start as int, total_size as int, start_addr as int),
        ensures
            final(self)@ == (BuddyView {
                queues: init_queues(mem_start as int, total_size as int, start_addr as int),
                mem_start: mem_start as int,
                total_size: total_size as int,
                available_size: mem_start + total_size - first_page(
                    total_size as int,
                    start_addr as int,
                ),
            }),
            final(self).bitmaps_placed(start_addr as int),
            final(self).marks_ok(),
            final(self)@.disjoint(),
            laid_coalesced(mem_start as int, first_page(total_size as int, start_addr as int))
                ==> final(self)@.coalesced(),
            top_aligned(mem_start as int, first_page(total_size as int, start_addr as int)) ==> {
                &&& final(self).wf()
                &&& final(self)@.free_size() == final(self)@.available_size
                &&& final(self)@.covers(
                    first_page(total_size as int, start_addr as int),
                    final(self)@.end(),
                )
            },
            forall|o: int|
                0 <= o <= MAX_ORDER ==> start_addr <= (#[trigger] final(self).bitmap(o)).spec_start_addr(),
            forall|o: int, p: int, j: int|
                0 <= o <= MAX_ORDER && 0 <= p <= MAX_ORDER && 0 <= j < final(self)@.queues[p].len()
                    ==> (#[trigger] final(self).bitmap(o)).spec_start_addr() + final(self).bitmap(
                    o,
                ).spec_size() <= #[trigger] final(self)@.queues[p][j],
    {
        let ghost total = total_size as int;
        self.mem_start = mem_start;
        self.total_size = total_size;
        proof {
            assert forall|o: int| 0 <= o <= MAX_ORDER implies (#[trigger] self.page_queues@[o]).wf() by {
                assert(self.page_queues@[o] == old(self).page_queues@[o]);
            }
            assert forall|o: int| 0 <= o <= MAX_ORDER implies #[trigger] self@.queues[o].len() == 0 by {
                assert(self@.queues[o] == old(self)@.queues[o]);
            }
        }
        self.init_bitmap(start_addr);
        let mut sum: usize = 0;
        let mut order: usize = 0;
        while order <= MAX_ORDER
            invariant
                order <= MAX_ORDER + 1,
                self.bitmaps_placed(start_addr as int),
                self.bit_maps@.len() == MAX_ORDER + 1,
                total == self.total_size as int,
                total >= 0,
                start_addr + bitmaps_size(total, MAX_ORDER + 1) <= usize::MAX,
                sum as int == bitmaps_size(total, order as int),
            decreases MAX_ORDER + 1 - order,
        {
            proof {
                lemma_bitmaps_size_mono(total, order as int + 1, MAX_ORDER + 1);
                lemma_bitmaps_size_nonneg(total, order as int);
            }
            sum = sum + self.bit_maps[order].size();
            order = order + 1;
        }
        let mut page_start = sum + start_addr;
        if page_start % MIN_PAGE_SIZE != 0 {
            page_start = (page_start / MIN_PAGE_SIZE + 1) * MIN_PAGE_SIZE;
            proof {
                vstd::arithmetic::div_mod::lemma_mod_multiples_basic(
                    (sum + start_addr) as int / 4096 + 1,
                    4096,
                );
            }
        }
        proof {
            assert(page_start as int == first_page(total, start_addr as int));
        }
        self.available_size = self.mem_start + self.total_size - page_start;
        self.init_queues(page_start);
        proof {
            assert forall|o: int| 0 <= o <= MAX_ORDER implies {
                &&& (#[trigger] self.bit_maps@[o]).spec_start_addr() == start_addr + bitmaps_size(
                    self.total_size as int,
                    o,
                )
                &&& self.bit_maps@[o].spec_quantity() == self.total_size as int / block_size(o)
                &&& self.bit_maps@[o].spec_size() == bytes_for_bits(self.bit_maps@[o].spec_quantity() as int)
            } by {
            }
            if top_aligned(mem_start as int, page_start as int) {
                self.lemma_marks_to_layout();
            }
            lemma_init_queues_clear_of_bitmaps(mem_start as int, total, start_addr as int);
            assert forall|o: int| 0 <= o <= MAX_ORDER implies start_addr <= (
            #[trigger] self.bitmap(o)).spec_start_addr() by {
                lemma_bitmaps_size_nonneg(total, o);
            }
            assert forall|o: int, p: int, j: int|
                0 <= o <= MAX_ORDER && 0 <= p <= MAX_ORDER && 0 <= j < self@.queues[p].len() implies (
            #[trigger] self.bitmap(o)).spec_start_addr() + self.bitmap(o).spec_size()
                <= #[trigger] self@.queues[p][j] by {
                lemma_bitmaps_size_mono(total, o + 1, MAX_ORDER + 1);
                lemma_bitmaps_size_nonneg(total, o);
                assert(self@.queues[p][j] == init_queues(mem_start as int, total, start_addr as int)[p][j]);
            }
        }
    }
}

impl Default for BuddyAllocator {
    /// An allocator with no memory to hand out.
    fn default() -> (a: Self)
        ensures
            a.wf(),
            a@.queues == empty_queues(),
            a@.mem_start == 0,
            a@.total_size == 0,
            a@.available_size == 0,
    {
        BuddyAllocator::new()
    }
}

} // verus!
