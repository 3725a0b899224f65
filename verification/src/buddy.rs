use vstd::prelude::*;
use crate::map::MemBitMap;
use crate::page::{AllocError, Align, Page};
use crate::queue::PageQueue;
use crate::sizes::{
    block_size, buddy_of, lemma_aligned_absolute, lemma_aligned_down, lemma_block_size_bounds,
    lemma_block_size_divides, lemma_block_size_positive, lemma_block_size_shift, lemma_buddy_pair,
    lemma_buddy_relative, lemma_buddy_xor, lemma_index_in_region, lemma_lower_buddy, lemma_index_past_region, lemma_mul_cancel,
    lemma_offset_index, max_block_size, page_size, MAX_ORDER, MIN_PAGE_SHIFT,
};
use crate::state::{
    lemma_first_nonempty, lemma_first_nonempty_found, lemma_first_nonempty_none,
    lemma_queues_size_ge, lemma_queues_size_update, BuddyView,
};

mod init;

verus! {

/// A buddy allocator of physical pages.
///
/// Free blocks of order `o` span `4096 << o` bytes and wait in queue `o`;
/// bitmap `o` has one bit per block of order `o` in the region, clear exactly
/// for the free ones.
#[derive(Debug)]
pub struct BuddyAllocator {
    page_queues: Vec<PageQueue>,
    bit_maps: Vec<MemBitMap>,
    mem_start: usize,
    total_size: usize,
    available_size: usize,
}

impl View for BuddyAllocator {
    type V = BuddyView;

    closed spec fn view(&self) -> BuddyView {
        BuddyView {
            queues: Seq::new(self.page_queues@.len(), |o: int| self.page_queues@[o]@),
            mem_start: self.mem_start as int,
            total_size: self.total_size as int,
            available_size: self.available_size as int,
        }
    }
}

impl BuddyAllocator {
    /// The queues and bitmaps are in place, and each bitmap has one bit per
    /// block of its order in the region, clear exactly for the free blocks.
    pub closed spec fn layout_ok(&self) -> bool {
        &&& self@.placed()
        &&& self.page_queues@.len() == MAX_ORDER + 1
        &&& self.bit_maps@.len() == MAX_ORDER + 1
        &&& forall|o: int| 0 <= o <= MAX_ORDER ==> (#[trigger] self.page_queues@[o]).wf()
        &&& forall|o: int|
            0 <= o <= MAX_ORDER ==> (#[trigger] self.bit_maps@[o]).wf()
                && self.bit_maps@[o].spec_quantity() == self.total_size as int / block_size(o)
        &&& forall|o: int, i: int|
            0 <= o <= MAX_ORDER && 0 <= i < self.bit_maps@[o].spec_quantity() ==> #[trigger] self.bit_maps@[o]@[i]
                == !self@.is_free(o, self.mem_start + i * block_size(o))
    }

    /// The invariant of the allocator.
    pub closed spec fn wf(&self) -> bool {
        &&& self.layout_ok()
        &&& self@.wf()
    }

    /// The bitmap of order `o`.
    pub closed spec fn bitmap(&self, o: int) -> MemBitMap {
        self.bit_maps@[o]
    }

    /// What the invariant of the allocator says: its state is well formed, and
    /// each bitmap has one bit per block of its order in the region, clear
    /// exactly for the free blocks.
    pub proof fn lemma_wf(&self)
        requires
            self.wf(),
        ensures
            self@.wf(),
            self.layout_ok(),
            forall|o: int|
                0 <= o <= MAX_ORDER ==> (#[trigger] self.bitmap(o)).wf()
                    && self.bitmap(o).spec_quantity() == self@.total_size / block_size(o)
                    && self.bitmap(o)@.len() == self.bitmap(o).spec_quantity(),
            forall|o: int, i: int|
                0 <= o <= MAX_ORDER && 0 <= i < self.bitmap(o).spec_quantity() ==> #[trigger] self.bitmap(o)@[i]
                    == !self@.is_free(o, self@.mem_start + i * block_size(o)),
    {
        assert forall|o: int|
            0 <= o <= MAX_ORDER implies (#[trigger] self.bitmap(o)).wf()
            && self.bitmap(o).spec_quantity() == self@.total_size / block_size(o)
            && self.bitmap(o)@.len() == self.bitmap(o).spec_quantity() by {
            self.bit_maps@[o].lemma_view_len();
        }
    }

    /// Index of the block of order `order` at `addr` in the bitmap of its order.
    fn page_offset(&self, addr: usize, order: usize) -> (off: usize)
        requires
            order + MIN_PAGE_SHIFT < usize::BITS,
            addr >= self.mem_start,
        ensures
            off as int == (addr - self.mem_start) / block_size(order as int),
    {
        let page_size = page_size(order);
        proof {
            lemma_block_size_positive(order as int);
        }
        (addr - self.mem_start) / page_size
    }

    proof fn lemma_block_index(&self, o: int, a: int)
        requires
            self.layout_ok(),
            self@.fits(o, a),
        ensures
            ({
                let off = (a - self.mem_start) / block_size(o);
                &&& 0 <= off < self.bit_maps@[o].spec_quantity()
                &&& self.mem_start + off * block_size(o) == a
            }),
    {
        lemma_block_size_positive(o);
        let b = block_size(o);
        lemma_offset_index(self.total_size as int, b, a - self.mem_start);
        let off = (a - self.mem_start) / b;
        assert(off * b == (a - self.mem_start));
    }

    /// Puts the block of order `order` at `addr` on its free queue and clears
    /// its bit.
    fn put_free(&mut self, order: usize, addr: usize)
        requires
            old(self).layout_ok(),
            order <= MAX_ORDER,
            addr != 0,
            old(self)@.fits(order as int, addr as int),
            !old(self)@.is_free(order as int, addr as int),
        ensures
            final(self).layout_ok(),
            final(self)@ == old(self)@.with_queue(
                order as int,
                old(self)@.queues[order as int].push(addr),
            ),
    {
        let off = self.page_offset(addr, order);
        proof {
            self.lemma_block_index(order as int, addr as int);
        }
        self.page_queues[order].enqueue(addr);
        self.bit_maps[order].clear_bit(off);
        proof {
            let o = order as int;
            let target = old(self)@.with_queue(o, old(self)@.queues[o].push(addr));
            assert(self@.queues =~= target.queues);
            assert(self@ == target);
            lemma_block_size_positive(o);
            assert forall|p: int, i: int|
                0 <= p <= MAX_ORDER && 0 <= i < self@.queues[p].len() implies self@.fits(
                p,
                #[trigger] self@.queues[p][i] as int,
            ) by {
                if p == o && i == old(self)@.queues[o].len() {
                } else {
                    assert(self@.queues[p][i] == old(self)@.queues[p][i]);
                }
            }
            assert forall|p: int, i: int|
                0 <= p <= MAX_ORDER && 0 <= i < self.bit_maps@[p].spec_quantity() implies #[trigger] self.bit_maps@[p]@[i]
                == !self@.is_free(p, self.mem_start + i * block_size(p)) by {
                self.bit_maps@[p].lemma_view_len();
                old(self).bit_maps@[p].lemma_view_len();
                if p == o {
                    let x = self.mem_start + i * block_size(p);
                    lemma_index_in_region(self.total_size as int, block_size(p), i);
                    if i != off {
                        if x == addr {
                            lemma_mul_cancel(i, off as int, block_size(p));
                        }
                        assert(x != addr);
                        assert(self@.queues[o].contains(x as usize) == old(self)@.queues[o].contains(
                            x as usize,
                        )) by {
                            if self@.queues[o].contains(x as usize) {
                                let k = choose|k: int|
                                    0 <= k < self@.queues[o].len() && self@.queues[o][k] == x as usize;
                                assert(old(self)@.queues[o][k] == x as usize);
                            }
                            if old(self)@.queues[o].contains(x as usize) {
                                let k = choose|k: int|
                                    0 <= k < old(self)@.queues[o].len() && old(self)@.queues[o][k]
                                        == x as usize;
                                assert(self@.queues[o][k] == x as usize);
                            }
                        }
                    } else {
                        assert(self@.queues[o][old(self)@.queues[o].len() as int] == addr);
                    }
                } else {
                    assert(self.bit_maps@[p] == old(self).bit_maps@[p]);
                }
            }
            assert forall|p: int| 0 <= p <= MAX_ORDER implies #[trigger] self@.queues[p].no_duplicates()
                && !self@.queues[p].contains(0) by {
                assert(self@.queues[p] == self.page_queues@[p]@);
            }
        }
    }
}


impl BuddyAllocator {
    /// Changing the free state of one block of order `o`, in its queue and in
    /// its bit, keeps the layout in order.
    proof fn lemma_update_keeps_layout(old: &Self, new: &Self, o: int, a: int, now_free: bool)
        requires
            old.layout_ok(),
            0 <= o <= MAX_ORDER,
            old@.fits(o, a),
            new.page_queues@.len() == MAX_ORDER + 1,
            new.bit_maps@.len() == MAX_ORDER + 1,
            new.mem_start == old.mem_start,
            new.total_size == old.total_size,
            forall|p: int|
                0 <= p <= MAX_ORDER && p != o ==> new.page_queues@[p] == old.page_queues@[p]
                    && new.bit_maps@[p] == old.bit_maps@[p],
            new.page_queues@[o].wf(),
            new.bit_maps@[o].wf(),
            new.bit_maps@[o].spec_quantity() == old.bit_maps@[o].spec_quantity(),
            new.bit_maps@[o]@ == old.bit_maps@[o]@.update(
                (a - old.mem_start) / block_size(o),
                !now_free,
            ),
            forall|x: usize| #[trigger]
                new.page_queues@[o]@.contains(x) == (if x as int == a {
                    now_free
                } else {
                    old.page_queues@[o]@.contains(x)
                }),
        ensures
            new.layout_ok(),
    {
        old.lemma_block_index(o, a);
        let off = (a - old.mem_start) / block_size(o);
        lemma_block_size_positive(o);
        assert forall|p: int, i: int|
            0 <= p <= MAX_ORDER && 0 <= i < new@.queues[p].len() implies new@.fits(
            p,
            #[trigger] new@.queues[p][i] as int,
        ) by {
            if p == o {
                let x = new@.queues[p][i];
                assert(new.page_queues@[o]@.contains(x));
                if x as int != a {
                    let k = choose|k: int|
                        0 <= k < old@.queues[o].len() && old@.queues[o][k] == x;
                    assert(old@.fits(o, old@.queues[o][k] as int));
                }
            } else {
                assert(new@.queues[p] == old@.queues[p]);
            }
        }
        assert forall|p: int| 0 <= p <= MAX_ORDER implies #[trigger] new@.queues[p].no_duplicates()
            && !new@.queues[p].contains(0) by {
            assert(new@.queues[p] == new.page_queues@[p]@);
            if p != o {
                assert(new.page_queues@[p] == old.page_queues@[p]);
            }
        }
        assert forall|p: int, i: int|
            0 <= p <= MAX_ORDER && 0 <= i < new.bit_maps@[p].spec_quantity() implies #[trigger] new.bit_maps@[p]@[i]
            == !new@.is_free(p, new.mem_start + i * block_size(p)) by {
            new.bit_maps@[p].lemma_view_len();
            old.bit_maps@[p].lemma_view_len();
            if p == o {
                let x = new.mem_start + i * block_size(p);
                lemma_index_in_region(new.total_size as int, block_size(p), i);
                assert(new@.queues[o] == new.page_queues@[o]@);
                assert(old@.queues[o] == old.page_queues@[o]@);
                assert(new.page_queues@[o]@.contains(x as usize) == (if x == a {
                    now_free
                } else {
                    old.page_queues@[o]@.contains(x as usize)
                }));
                if i != off {
                    if x == a {
                        lemma_mul_cancel(i, off, block_size(p));
                    }
                }
            } else {
                assert(new.bit_maps@[p] == old.bit_maps@[p]);
                assert(new@.queues[p] == old@.queues[p]);
            }
        }
    }

    /// Takes the block at the front of the free queue of order `order` and
    /// sets its bit; returns `0` when the queue is empty.
    fn take_free(&mut self, order: usize) -> (addr: usize)
        requires
            old(self).layout_ok(),
            order <= MAX_ORDER,
        ensures
            final(self).layout_ok(),
            old(self)@.queues[order as int].len() == 0 ==> addr == 0 && final(self)@ == old(self)@,
            old(self)@.queues[order as int].len() > 0 ==> addr == old(self)@.queues[order as int][0]
                && final(self)@ == old(self)@.with_queue(
                order as int,
                old(self)@.queues[order as int].drop_first(),
            ),
    {
        let ghost o = order as int;
        let addr = self.page_queues[order].dequeue();
        if addr != 0 {
            proof {
                assert(old(self)@.queues[o] == old(self).page_queues@[o]@);
                assert(old(self)@.fits(o, addr as int));
                old(self).lemma_block_index(o, addr as int);
                old(self).bit_maps@[o].lemma_view_len();
                assert(old(self)@.queues[o][0] == addr);
            }
            let off = self.page_offset(addr, order);
            self.bit_maps[order].set_bit(off);
            proof {
                let q = old(self).page_queues@[o]@;
                assert forall|x: usize| #[trigger]
                    self.page_queues@[o]@.contains(x) == (if x as int == addr as int {
                        false
                    } else {
                        q.contains(x)
                    }) by {
                    if self.page_queues@[o]@.contains(x) {
                        let k = choose|k: int|
                            0 <= k < self.page_queues@[o]@.len() && self.page_queues@[o]@[k] == x;
                        assert(q[k + 1] == x);
                    }
                    if q.contains(x) && x != addr {
                        let k = choose|k: int| 0 <= k < q.len() && q[k] == x;
                        assert(k != 0);
                        assert(self.page_queues@[o]@[k - 1] == x);
                    }
                }
                Self::lemma_update_keeps_layout(old(self), self, o, addr as int, false);
                assert(self@.queues =~= old(self)@.with_queue(o, q.drop_first()).queues);
            }
        } else {
            proof {
                assert(self@.queues =~= old(self)@.queues);
            }
        }
        addr
    }

    /// Unlinks the free block of order `order` at `addr` from its queue and
    /// sets its bit.
    fn unlink_free(&mut self, order: usize, addr: usize)
        requires
            old(self).layout_ok(),
            order <= MAX_ORDER,
            old(self)@.is_free(order as int, addr as int),
        ensures
            final(self).layout_ok(),
            final(self)@ == old(self)@.with_queue(
                order as int,
                old(self)@.queues[order as int].remove(
                    old(self)@.queues[order as int].index_of(addr),
                ),
            ),
    {
        let ghost o = order as int;
        let ghost q = old(self).page_queues@[o]@;
        proof {
            assert(old(self)@.queues[o] == q);
            let k = choose|k: int| 0 <= k < q.len() && q[k] == addr;
            assert(old(self)@.fits(o, q[k] as int));
            old(self).lemma_block_index(o, addr as int);
            old(self).bit_maps@[o].lemma_view_len();
        }
        self.page_queues[order].remove(addr);
        let off = self.page_offset(addr, order);
        self.bit_maps[order].set_bit(off);
        proof {
            let k = q.index_of(addr);
            assert(q[k] == addr);
            assert forall|x: usize| #[trigger]
                self.page_queues@[o]@.contains(x) == (if x as int == addr as int {
                    false
                } else {
                    q.contains(x)
                }) by {
                let r = q.remove(k);
                assert(self.page_queues@[o]@ == r);
                if r.contains(x) {
                    let j = choose|j: int| 0 <= j < r.len() && r[j] == x;
                    if j < k {
                        assert(q[j] == x);
                        assert(j != k);
                    } else {
                        assert(q[j + 1] == x);
                    }
                }
                if q.contains(x) && x != addr {
                    let j = choose|j: int| 0 <= j < q.len() && q[j] == x;
                    if j < k {
                        assert(r[j] == x);
                    } else {
                        assert(j != k);
                        assert(r[j - 1] == x);
                    }
                }
            }
            Self::lemma_update_keeps_layout(old(self), self, o, addr as int, false);
            assert(self@.queues =~= old(self)@.with_queue(o, q.remove(k)).queues);
        }
    }
}


impl BuddyAllocator {
    /// Takes a free block of an order above `down_limit` and splits it down to
    /// order `down_limit`, returning the upper halves to the free queues.
    /// Returns the address of the remaining block of order `down_limit`, or `0`
    /// when no queue above `down_limit` holds a block.
    pub fn split(&mut self, down_limit: usize) -> (addr: usize)
        requires
            old(self).layout_ok(),
            old(self)@.disjoint(),
            down_limit <= MAX_ORDER,
        ensures
            final(self).layout_ok(),
            final(self)@.disjoint(),
            match old(self)@.first_nonempty(down_limit + 1) {
                None => addr == 0 && final(self)@ == old(self)@,
                Some(k) => {
                    &&& addr == old(self)@.queues[k][0]
                    &&& final(self)@ == (BuddyView { queues: old(self)@.carve(down_limit as int, k), ..old(self)@ })
                    &&& final(self)@.fits(down_limit as int, addr as int)
                    &&& final(self)@.apart_from_free(down_limit as int, addr as int)
                    &&& final(self)@.free_size() == old(self)@.free_size() - block_size(down_limit as int)
                    &&& forall|x: int|
                        #[trigger] old(self)@.holds(x) == (final(self)@.holds(x) || (addr <= x < addr
                            + block_size(down_limit as int)))
                    &&& addr != 0
                },
            },
            old(self)@.coalesced() ==> final(self)@.coalesced(),
            old(self).wf() ==> final(self).wf(),
    {
        let mut order = down_limit + 1;
        loop
            invariant_except_break
                down_limit + 1 <= order <= MAX_ORDER + 1,
                forall|j: int| down_limit + 1 <= j < order ==> self@.queues[j].len() == 0,
                self == old(self),
                old(self).layout_ok(),
                old(self)@.disjoint(),
            ensures
                down_limit + 1 <= order <= MAX_ORDER,
                forall|j: int| down_limit + 1 <= j < order ==> self@.queues[j].len() == 0,
                self@.queues[order as int].len() > 0,
                self == old(self),
            decreases MAX_ORDER + 1 - order,
        {
            if order > MAX_ORDER {
                proof {
                    lemma_first_nonempty_none(self@, down_limit + 1);
                }
                return 0;
            }
            proof {
                assert(self@.queues[order as int] == self.page_queues@[order as int]@);
            }
            if !self.page_queues[order].empty() {
                break;
            }
            order += 1;
        }
        let ghost k = order as int;
        let ghost v0 = old(self)@;
        proof {
            lemma_first_nonempty(v0, down_limit + 1, k);
        }
        let page_addr = self.take_free(order);
        let ghost a = page_addr as int;
        proof {
            assert(v0.fits(k, a));
            lemma_block_size_positive(k);
            // the taken block overlaps no remaining free block
            assert forall|p: int, j: int|
                0 <= p <= MAX_ORDER && 0 <= j < self@.queues[p].len() implies #[trigger] BuddyView::apart(
                k,
                a,
                p,
                self@.queues[p][j] as int,
            ) by {
                if p == k {
                    assert(self@.queues[p][j] == v0.queues[k][j + 1]);
                    assert(BuddyView::apart(k, v0.queues[k][0] as int, k, v0.queues[k][j + 1] as int));
                } else {
                    assert(self@.queues[p][j] == v0.queues[p][j]);
                    assert(BuddyView::apart(k, v0.queues[k][0] as int, p, v0.queues[p][j] as int));
                }
            }
            assert forall|o: int, i: int, p: int, j: int|
                0 <= o <= MAX_ORDER && 0 <= i < self@.queues[o].len() && 0 <= p <= MAX_ORDER && 0
                    <= j < self@.queues[p].len() && (o != p || i != j) implies BuddyView::apart(
                o,
                #[trigger] self@.queues[o][i] as int,
                p,
                #[trigger] self@.queues[p][j] as int,
            ) by {
                let i0 = if o == k { i + 1 } else { i };
                let j0 = if p == k { j + 1 } else { j };
                assert(self@.queues[o][i] == v0.queues[o][i0]);
                assert(self@.queues[p][j] == v0.queues[p][j0]);
            }
            lemma_queues_size_update(v0.queues, k, v0.queues[k].drop_first(), MAX_ORDER + 1);
            let d = v0.queues[k].drop_first().len() - v0.queues[k].len();
            assert(d == -1);
            assert(d * block_size(k) == -block_size(k)) by (nonlinear_arith)
                requires
                    d == -1,
            ;
            assert(self@.queues == v0.queues.update(k, v0.queues[k].drop_first()));
            assert(v0.queues[k].drop_first() =~= v0.queues[k].remove(0));
            v0.lemma_holds_remove(k, 0);
            assert forall|x: int| #[trigger] v0.holds(x) == (self@.holds(x) || (a <= x < a + block_size(k))) by {
                assert(self@ == v0.with_queue(k, v0.queues[k].remove(0)));
                if a <= x < a + block_size(k) {
                    assert(v0.queues[k][0] <= x < v0.queues[k][0] + block_size(k));
                }
            }
            if v0.coalesced() {
                assert forall|o: int, x: usize|
                    0 <= o <= MAX_ORDER && #[trigger] self@.queues[o].contains(x) implies v0.queues[o].contains(
                    x,
                ) by {
                    let j = choose|j: int| 0 <= j < self@.queues[o].len() && self@.queues[o][j] == x;
                    if o == k {
                        assert(v0.queues[o][j + 1] == x);
                    } else {
                        assert(v0.queues[o][j] == x);
                    }
                }
                v0.lemma_coalesced_shrink(self@);
            }
        }
        let mut ord = order;
        while ord > down_limit
            invariant
                down_limit <= ord <= k,
                k <= MAX_ORDER,
                self.layout_ok(),
                self@.disjoint(),
                v0.fits(k, a),
                page_addr as int == a,
                a == v0.queues[k][0],
                v0.queues[k].len() > 0,
                self@.fits(ord as int, a),
                self@.apart_from_free(ord as int, a),
                self@.mem_start == v0.mem_start,
                self@.total_size == v0.total_size,
                self@.available_size == v0.available_size,
                self@.free_size() == v0.free_size() - block_size(ord as int),
                v0.coalesced() ==> self@.coalesced(),
                forall|x: int| #[trigger] v0.holds(x) == (self@.holds(x) || (a <= x < a + block_size(ord as int))),
                self@.queues == Seq::new(
                    v0.queues.len(),
                    |j: int|
                        if j == k {
                            v0.queues[k].drop_first()
                        } else if ord <= j < k {
                            v0.queues[j].push((a + block_size(j)) as usize)
                        } else {
                            v0.queues[j]
                        },
                ),
            decreases ord,
        {
            ord = ord - 1;
            let page_size = page_size(ord);
            let ghost o = ord as int;
            proof {
                lemma_block_size_bounds(o);
                lemma_block_size_divides(o + 1, k);
                lemma_aligned_down(a - v0.mem_start, o + 1, k);
                lemma_aligned_down(a - v0.mem_start, o, o + 1);
            }
            let new_page = page_addr + page_size;
            proof {
                let b = block_size(o);
                assert((a - v0.mem_start + b) % b == 0) by {
                    vstd::arithmetic::div_mod::lemma_mod_add_multiples_vanish(a - v0.mem_start, b);
                }
                assert(self@.fits(o, new_page as int));
                assert(self@.queues[o] == v0.queues[o]);
                if self@.is_free(o, new_page as int) {
                    let j = choose|j: int| 0 <= j < self@.queues[o].len() && self@.queues[o][j] == new_page;
                    assert(BuddyView::apart(o + 1, a, o, self@.queues[o][j] as int));
                }
            }
            let ghost before = self@;
            proof {
                if v0.coalesced() {
                    lemma_lower_buddy(a - v0.mem_start, o, k);
                    assert(before.buddy_in_region(new_page as int, o) == a);
                    if before.is_free(o, a) {
                        let j = choose|j: int|
                            0 <= j < before.queues[o].len() && before.queues[o][j] == a as usize;
                        assert(BuddyView::apart(o + 1, a, o, before.queues[o][j] as int));
                    }
                    before.lemma_coalesced_push(o, new_page);
                }
            }
            self.put_free(ord, new_page);
            proof {
                let b = block_size(o);
                let q = before.queues[o];
                assert forall|p: int, j: int|
                    0 <= p <= MAX_ORDER && 0 <= j < self@.queues[p].len() implies #[trigger] BuddyView::apart(
                    o,
                    a,
                    p,
                    self@.queues[p][j] as int,
                ) by {
                    if p == o && j == q.len() {
                    } else {
                        assert(self@.queues[p][j] == before.queues[p][j]);
                        assert(BuddyView::apart(o + 1, a, p, before.queues[p][j] as int));
                    }
                }
                assert forall|o1: int, i1: int, p1: int, j1: int|
                    0 <= o1 <= MAX_ORDER && 0 <= i1 < self@.queues[o1].len() && 0 <= p1 <= MAX_ORDER
                        && 0 <= j1 < self@.queues[p1].len() && (o1 != p1 || i1 != j1) implies BuddyView::apart(
                    o1,
                    #[trigger] self@.queues[o1][i1] as int,
                    p1,
                    #[trigger] self@.queues[p1][j1] as int,
                ) by {
                    let new1 = o1 == o && i1 == q.len();
                    let new2 = p1 == o && j1 == q.len();
                    if !new1 {
                        assert(self@.queues[o1][i1] == before.queues[o1][i1]);
                    }
                    if !new2 {
                        assert(self@.queues[p1][j1] == before.queues[p1][j1]);
                    }
                    if new1 && !new2 {
                        assert(BuddyView::apart(o + 1, a, p1, before.queues[p1][j1] as int));
                    }
                    if new2 && !new1 {
                        assert(BuddyView::apart(o + 1, a, o1, before.queues[o1][i1] as int));
                    }
                }
                lemma_queues_size_update(before.queues, o, q.push(new_page), MAX_ORDER + 1);
                let d = q.push(new_page).len() - q.len();
                assert(d == 1);
                assert(d * b == b) by (nonlinear_arith)
                    requires
                        d == 1,
                ;
                assert(self@.queues == before.queues.update(o, q.push(new_page)));
                assert(self@.free_size() == before.free_size() + b);
                assert(block_size(o + 1) == 2 * b);
                before.lemma_holds_push(o, new_page);
                assert forall|x: int| #[trigger] v0.holds(x) == (self@.holds(x) || (a <= x < a + b)) by {
                    assert(self@ == before.with_queue(o, before.queues[o].push(new_page)));
                    assert(v0.holds(x) == (before.holds(x) || (a <= x < a + block_size(o + 1))));
                }
                assert(self@.queues =~= Seq::new(
                    v0.queues.len(),
                    |j: int|
                        if j == k {
                            v0.queues[k].drop_first()
                        } else if o <= j < k {
                            v0.queues[j].push((a + block_size(j)) as usize)
                        } else {
                            v0.queues[j]
                        },
                ));
            }
        }
        proof {
            assert(self@.queues =~= v0.carve(down_limit as int, k));
            assert(a >= v0.mem_start);
            assert(a != 0) by {
                assert(v0.queues[k] == old(self).page_queues@[k]@);
                assert(v0.queues[k].contains(page_addr));
            }
            if old(self).wf() {
                lemma_block_size_positive(down_limit as int);
                assert(self@.free_size() == v0.free_size() - block_size(down_limit as int));
            }
        }
        page_addr
    }

    /// Hands out a free block of the given alignment: the first free block of
    /// that order if there is one, else one split from a larger free block.
    pub fn alloc_pages(&mut self, align: Align) -> (r: Result<Page, AllocError>)
        requires
            old(self).wf(),
            MIN_PAGE_SHIFT <= align.power < usize::BITS,
        ensures
            final(self).wf(),
            align.power - MIN_PAGE_SHIFT > MAX_ORDER ==> r == Err::<Page, AllocError>(
                AllocError::Misaligned,
            ) && final(self)@ == old(self)@,
            align.power - MIN_PAGE_SHIFT <= MAX_ORDER ==> ({
                let (v, res) = old(self)@.alloc_result(align.power - MIN_PAGE_SHIFT);
                &&& final(self)@ == v
                &&& res is None ==> r == Err::<Page, AllocError>(AllocError::OutOfMemory)
                &&& res is Some ==> r == Ok::<Page, AllocError>((Page { addr: res->0, align }))
            }),
            r is Ok ==> final(self)@.fits(align.power - MIN_PAGE_SHIFT, r->Ok_0.addr as int)
                && final(self)@.apart_from_free(align.power - MIN_PAGE_SHIFT, r->Ok_0.addr as int),
            r is Ok ==> forall|x: int|
                #[trigger] old(self)@.holds(x) == (final(self)@.holds(x) || (r->Ok_0.addr <= x
                    < r->Ok_0.addr + block_size(align.power - MIN_PAGE_SHIFT))),
            final(self)@.available_size - final(self)@.free_size() == old(self)@.available_size
                - old(self)@.free_size(),
            old(self)@.coalesced() ==> final(self)@.coalesced(),
            forall|p: int, b: int|
                0 <= p <= MAX_ORDER && #[trigger] old(self)@.apart_from_free(p, b)
                    ==> final(self)@.apart_from_free(p, b),
    {
        let order = (align.as_power() - MIN_PAGE_SHIFT as u32) as usize;
        if order > MAX_ORDER {
            return Err(AllocError::Misaligned);
        }
        let ghost o = order as int;
        let ghost v0 = old(self)@;
        proof {
            lemma_block_size_shift(o);
            assert(align.spec_size() == block_size(o));
        }
        let mut page_addr = self.take_free(order);
        if page_addr != 0 {
            proof {
                lemma_first_nonempty(v0, o, o);
                lemma_queues_size_update(v0.queues, o, v0.queues[o].drop_first(), MAX_ORDER + 1);
                let d = v0.queues[o].drop_first().len() - v0.queues[o].len();
                assert(d == -1);
                assert(d * block_size(o) == -block_size(o)) by (nonlinear_arith)
                    requires
                        d == -1,
                ;
                assert(self@.queues =~= v0.carve(o, o));
                assert(self@.queues == v0.queues.update(o, v0.queues[o].drop_first()));
                assert forall|o1: int, i1: int, p1: int, j1: int|
                    0 <= o1 <= MAX_ORDER && 0 <= i1 < self@.queues[o1].len() && 0 <= p1 <= MAX_ORDER
                        && 0 <= j1 < self@.queues[p1].len() && (o1 != p1 || i1 != j1) implies BuddyView::apart(
                    o1,
                    #[trigger] self@.queues[o1][i1] as int,
                    p1,
                    #[trigger] self@.queues[p1][j1] as int,
                ) by {
                    let i0 = if o1 == o { i1 + 1 } else { i1 };
                    let j0 = if p1 == o { j1 + 1 } else { j1 };
                    assert(self@.queues[o1][i1] == v0.queues[o1][i0]);
                    assert(self@.queues[p1][j1] == v0.queues[p1][j0]);
                }
                if v0.coalesced() {
                    assert forall|p: int, x: usize|
                        0 <= p <= MAX_ORDER && #[trigger] self@.queues[p].contains(x) implies v0.queues[p].contains(
                        x,
                    ) by {
                        let j = choose|j: int| 0 <= j < self@.queues[p].len() && self@.queues[p][j] == x;
                        if p == o {
                            assert(v0.queues[p][j + 1] == x);
                        } else {
                            assert(v0.queues[p][j] == x);
                        }
                    }
                    v0.lemma_coalesced_shrink(self@);
                }
                assert(v0.fits(o, page_addr as int));
                assert(v0.queues[o].drop_first() =~= v0.queues[o].remove(0));
                v0.lemma_holds_remove(o, 0);
                assert forall|x: int| #[trigger] v0.holds(x) == (self@.holds(x) || (page_addr <= x < page_addr
                    + block_size(o))) by {
                    assert(self@ == v0.with_queue(o, v0.queues[o].remove(0)));
                    if page_addr <= x < page_addr + block_size(o) {
                        assert(v0.queues[o][0] <= x < v0.queues[o][0] + block_size(o));
                    }
                }
                assert forall|p: int, j: int|
                    0 <= p <= MAX_ORDER && 0 <= j < self@.queues[p].len() implies #[trigger] BuddyView::apart(
                    o,
                    page_addr as int,
                    p,
                    self@.queues[p][j] as int,
                ) by {
                    let j0 = if p == o { j + 1 } else { j };
                    assert(self@.queues[p][j] == v0.queues[p][j0]);
                    assert(BuddyView::apart(o, v0.queues[o][0] as int, p, v0.queues[p][j0] as int));
                }
            }
        } else {
            proof {
                assert(v0.queues[o].len() == 0) by {
                    if v0.queues[o].len() > 0 {
                        assert(v0.queues[o] == old(self).page_queues@[o]@);
                        assert(v0.queues[o].contains(v0.queues[o][0]));
                    }
                }
                assert(v0.first_nonempty(o) == v0.first_nonempty(o + 1));
            }
            page_addr = self.split(order);
        }
        if page_addr == 0 {
            proof {
                if v0.first_nonempty(o) is Some {
                    lemma_first_nonempty_found(v0, o);
                }
            }
            return Err(AllocError::OutOfMemory);
        }
        proof {
            lemma_first_nonempty_found(v0, o);
            let k = v0.first_nonempty(o)->0;
            lemma_queues_size_ge(v0.queues, k, MAX_ORDER + 1);
            lemma_block_size_divides(o, k);
            assert(v0.queues[k].len() * block_size(k) >= block_size(k)) by (nonlinear_arith)
                requires
                    v0.queues[k].len() >= 1,
                    block_size(k) >= 0,
            ;
        }
        let ghost v1 = self@;
        proof {
            assert forall|x: int| #[trigger] v0.holds(x) == (v1.holds(x) || (page_addr <= x < page_addr
                + block_size(o))) by {}
        }
        self.available_size -= align.as_size();
        proof {
            assert(self@.queues == v1.queues);
            assert forall|x: int| #[trigger] self@.holds(x) == v1.holds(x) by {}
            v0.lemma_apart_kept_shrink(self@);
        }
        Ok(Page::new(page_addr, align))
    }
}


impl BuddyAllocator {
    /// Returns the block of order `start_order` at `page_addr` to the free
    /// queues, merging it with its free buddies.
    fn merge(&mut self, start_order: usize, page_addr: usize)
        requires
            old(self).layout_ok(),
            old(self)@.disjoint(),
            start_order <= MAX_ORDER,
            old(self)@.can_free(start_order as int, page_addr as int),
        ensures
            final(self).layout_ok(),
            final(self)@.disjoint(),
            final(self)@ == old(self)@.merge_result(start_order as int, page_addr as int),
            final(self)@.available_size == old(self)@.available_size,
            final(self)@.mem_start == old(self)@.mem_start,
            final(self)@.total_size == old(self)@.total_size,
            final(self)@.free_size() == old(self)@.free_size() + block_size(start_order as int),
            old(self)@.coalesced() ==> final(self)@.coalesced(),
            forall|x: int|
                #[trigger] final(self)@.holds(x) == (old(self)@.holds(x) || (page_addr <= x < page_addr
                    + block_size(start_order as int))),
    {
        let ghost v0 = old(self)@;
        let ghost a0 = page_addr as int;
        let mut page_addr = page_addr;
        let mut order = start_order;
        while order < self.page_queues.len()
            invariant_except_break
                start_order <= order <= MAX_ORDER,
                self.layout_ok(),
                self@.mem_start % max_block_size() == 0,
                v0.coalesced() ==> self@.coalesced(),
                forall|x: int|
                    #![trigger v0.holds(x)]
                    #![trigger self@.holds(x)]
                    (v0.holds(x) || (a0 <= x < a0 + block_size(start_order as int))) == (self@.holds(x)
                        || (page_addr <= x < page_addr + block_size(order as int))),
                self@.disjoint(),
                page_addr != 0,
                self@.fits(order as int, page_addr as int),
                self@.apart_from_free(order as int, page_addr as int),
                self@.merge_result(order as int, page_addr as int) == v0.merge_result(
                    start_order as int,
                    a0,
                ),
                self@.merge_stop(order as int, page_addr as int) == v0.merge_stop(
                    start_order as int,
                    a0,
                ),
                v0.merge_stop(start_order as int, a0).0 == MAX_ORDER ==> buddy_of(
                    v0.merge_stop(start_order as int, a0).1,
                    MAX_ORDER as int,
                ) >= self.mem_start,
                self@.free_size() + block_size(order as int) == v0.free_size() + block_size(
                    start_order as int,
                ),
                self@.mem_start == v0.mem_start,
                self@.total_size == v0.total_size,
                self@.available_size == v0.available_size,
            ensures
                self.layout_ok(),
                self@.disjoint(),
                v0.coalesced() ==> self@.coalesced(),
                forall|x: int|
                    #[trigger] self@.holds(x) == (v0.holds(x) || (a0 <= x < a0 + block_size(
                        start_order as int,
                    ))),
                self@ == v0.merge_result(start_order as int, a0),
                self@.mem_start == v0.mem_start,
                self@.total_size == v0.total_size,
                self@.available_size == v0.available_size,
                self@.free_size() == v0.free_size() + block_size(start_order as int),
            decreases MAX_ORDER + 1 - order,
        {
            let ghost o = order as int;
            let ghost cur = self@;
            let ghost a = page_addr as int;
            let page_size = page_size(order);
            proof {
                lemma_block_size_bounds(o);
                lemma_aligned_absolute(cur.mem_start, a, o);
                lemma_buddy_xor(page_addr, o);
            }
            let buddy_addr = page_addr ^ page_size;
            let ghost b = buddy_addr as int;
            proof {
                assert(b == buddy_of(a, o));
                if o < MAX_ORDER {
                    lemma_aligned_down(cur.mem_start, o + 1, MAX_ORDER as int);
                    lemma_buddy_pair(cur.mem_start, a, o);
                } else {
                    assert(cur.merge_stop(o, a) == (o, a));
                }
            }
            let off = self.page_offset(buddy_addr, order);
            let set = self.bit_maps[order].is_set(off);
            proof {
                // the bit of the buddy is clear exactly when the buddy is free
                lemma_block_size_positive(o);
                let bsz = block_size(o);
                if o < MAX_ORDER {
                    if b + bsz <= cur.end() {
                        assert(cur.fits(o, b));
                        self.lemma_block_index(o, b);
                    } else {
                        lemma_index_past_region(cur.total_size, bsz, b - cur.mem_start);
                        if cur.is_free(o, b) {
                            let j = choose|j: int| 0 <= j < cur.queues[o].len() && cur.queues[o][j] == b as usize;
                            assert(cur.fits(o, cur.queues[o][j] as int));
                        }
                    }
                }
            }
            if !set && order < MAX_ORDER {
                proof {
                    assert(cur.is_free(o, b));
                }
                self.unlink_free(order, buddy_addr);
                let ghost low = if a < b { a } else { b };
                proof {
                    let bsz = block_size(o);
                    let q = cur.queues[o];
                    let k = q.index_of(buddy_addr);
                    assert(q[k] == buddy_addr);
                    assert(self@ == cur.without(o, b));
                    if v0.coalesced() {
                        assert forall|p: int, x: usize|
                            0 <= p <= MAX_ORDER && #[trigger] self@.queues[p].contains(x) implies cur.queues[p].contains(
                            x,
                        ) by {
                            let j = choose|j: int| 0 <= j < self@.queues[p].len() && self@.queues[p][j] == x;
                            if p == o {
                                let j0 = if j < k { j } else { j + 1 };
                                assert(cur.queues[p][j0] == x);
                            } else {
                                assert(cur.queues[p][j] == x);
                            }
                        }
                        cur.lemma_coalesced_shrink(self@);
                    }
                    // remaining free blocks are the old ones but the buddy
                    assert forall|p: int, j: int|
                        0 <= p <= MAX_ORDER && 0 <= j < self@.queues[p].len() implies exists|j0: int|
                        0 <= j0 < cur.queues[p].len() && (p != o || j0 != k) && #[trigger] self@.queues[p][j]
                            == cur.queues[p][j0] by {
                        if p == o {
                            let j0 = if j < k { j } else { j + 1 };
                            assert(self@.queues[p][j] == cur.queues[p][j0]);
                        } else {
                            assert(self@.queues[p][j] == cur.queues[p][j]);
                        }
                    }
                    assert forall|o1: int, i1: int, p1: int, j1: int|
                        0 <= o1 <= MAX_ORDER && 0 <= i1 < self@.queues[o1].len() && 0 <= p1
                            <= MAX_ORDER && 0 <= j1 < self@.queues[p1].len() && (o1 != p1 || i1 != j1) implies BuddyView::apart(
                        o1,
                        #[trigger] self@.queues[o1][i1] as int,
                        p1,
                        #[trigger] self@.queues[p1][j1] as int,
                    ) by {
                        let i0 = if o1 == o && i1 >= k { i1 + 1 } else { i1 };
                        let j0 = if p1 == o && j1 >= k { j1 + 1 } else { j1 };
                        assert(self@.queues[o1][i1] == cur.queues[o1][i0]);
                        assert(self@.queues[p1][j1] == cur.queues[p1][j0]);
                    }
                    assert forall|p: int, j: int|
                        0 <= p <= MAX_ORDER && 0 <= j < self@.queues[p].len() implies #[trigger] BuddyView::apart(
                        o + 1,
                        low,
                        p,
                        self@.queues[p][j] as int,
                    ) by {
                        let j0 = if p == o && j >= k { j + 1 } else { j };
                        lemma_block_size_positive(p);
                        assert(self@.queues[p][j] == cur.queues[p][j0]);
                        assert(BuddyView::apart(o, a, p, cur.queues[p][j0] as int));
                        assert(BuddyView::apart(o, cur.queues[o][k] as int, p, cur.queues[p][j0] as int));
                    }
                    lemma_queues_size_update(cur.queues, o, q.remove(k), MAX_ORDER + 1);
                    let d = q.remove(k).len() - q.len();
                    assert(d == -1);
                    assert(d * bsz == -bsz) by (nonlinear_arith)
                        requires
                            d == -1,
                    ;
                    assert(self@.queues == cur.queues.update(o, q.remove(k)));
                    assert(self@.fits(o + 1, low));
                    cur.lemma_holds_remove(o, k);
                    assert forall|x: int|
                        (#[trigger] cur.holds(x) || (a <= x < a + bsz)) == (self@.holds(x) || (low <= x
                            < low + block_size(o + 1))) by {
                        assert(self@ == cur.with_queue(o, q.remove(k)));
                        if b <= x < b + bsz {
                            assert(cur.queues[o][k] <= x < cur.queues[o][k] + bsz);
                        }
                    }
                    assert forall|x: int|
                        #![trigger v0.holds(x)]
                        #![trigger self@.holds(x)]
                        (v0.holds(x) || (a0 <= x < a0 + block_size(start_order as int))) == (
                        self@.holds(x) || (low <= x < low + block_size(o + 1))) by {
                        assert((cur.holds(x) || (a <= x < a + bsz)) == (self@.holds(x) || (low <= x
                            < low + block_size(o + 1))));
                    }
                    assert(low != 0) by {
                        assert(q.contains(buddy_addr));
                    }
                }
                if buddy_addr < page_addr {
                    page_addr = buddy_addr;
                }
                proof {
                    assert(page_addr as int == low);
                    assert(cur.merge_result(o, a) == self@.merge_result(o + 1, low));
                    assert(cur.merge_stop(o, a) == self@.merge_stop(o + 1, low));
                }
            } else {
                proof {
                    assert(!cur.is_free(o, a)) by {
                        if cur.is_free(o, a) {
                            let j = choose|j: int| 0 <= j < cur.queues[o].len() && cur.queues[o][j] == a as usize;
                            assert(BuddyView::apart(o, a, o, cur.queues[o][j] as int));
                        }
                    }
                    if o < MAX_ORDER {
                        assert(!cur.is_free(o, b));
                    }
                    assert(cur.merge_result(o, a) == cur.with_queue(o, cur.queues[o].push(page_addr)));
                    if v0.coalesced() {
                        if o < MAX_ORDER {
                            lemma_aligned_down(cur.mem_start, o + 1, MAX_ORDER as int);
                            lemma_buddy_relative(cur.mem_start, a, o);
                        }
                        cur.lemma_coalesced_push(o, page_addr);
                    }
                }
                self.put_free(order, page_addr);
                proof {
                    let q = cur.queues[o];
                    let bsz = block_size(o);
                    assert forall|o1: int, i1: int, p1: int, j1: int|
                        0 <= o1 <= MAX_ORDER && 0 <= i1 < self@.queues[o1].len() && 0 <= p1
                            <= MAX_ORDER && 0 <= j1 < self@.queues[p1].len() && (o1 != p1 || i1 != j1) implies BuddyView::apart(
                        o1,
                        #[trigger] self@.queues[o1][i1] as int,
                        p1,
                        #[trigger] self@.queues[p1][j1] as int,
                    ) by {
                        let new1 = o1 == o && i1 == q.len();
                        let new2 = p1 == o && j1 == q.len();
                        if !new1 {
                            assert(self@.queues[o1][i1] == cur.queues[o1][i1]);
                        }
                        if !new2 {
                            assert(self@.queues[p1][j1] == cur.queues[p1][j1]);
                        }
                        if new1 && !new2 {
                            assert(BuddyView::apart(o, a, p1, cur.queues[p1][j1] as int));
                        }
                        if new2 && !new1 {
                            assert(BuddyView::apart(o, a, o1, cur.queues[o1][i1] as int));
                        }
                    }
                    lemma_queues_size_update(cur.queues, o, q.push(page_addr), MAX_ORDER + 1);
                    let d = q.push(page_addr).len() - q.len();
                    assert(d == 1);
                    assert(d * bsz == bsz) by (nonlinear_arith)
                        requires
                            d == 1,
                    ;
                    assert(self@.queues == cur.queues.update(o, q.push(page_addr)));
                    cur.lemma_holds_push(o, page_addr);
                    assert(self@ == cur.with_queue(o, q.push(page_addr)));
                    assert forall|x: int| #[trigger] self@.holds(x) == (v0.holds(x) || (a0 <= x < a0
                        + block_size(start_order as int))) by {
                        assert(self@.holds(x) == (cur.holds(x) || (a <= x < a + bsz)));
                    }
                }
                break;
            }
            order += 1;
        }
    }

    /// Gives back a block handed out by `alloc_pages`, merging it with its
    /// free buddies. Buddies are found by address while the bitmaps count
    /// blocks from `mem_start`, so the region must start on a boundary of a
    /// largest block (`can_free`).
    pub fn free_pages(&mut self, page: Page) -> (r: Result<(), AllocError>)
        requires
            old(self).wf(),
            MIN_PAGE_SHIFT <= page.align.power < usize::BITS,
            page.align.power - MIN_PAGE_SHIFT <= MAX_ORDER ==> old(self)@.can_free(
                page.align.power - MIN_PAGE_SHIFT,
                page.addr as int,
            ),
            old(self)@.available_size + page.align.spec_size() <= usize::MAX,
        ensures
            r == Ok::<(), AllocError>(()),
            final(self).wf(),
            page.align.power - MIN_PAGE_SHIFT <= MAX_ORDER ==> final(self)@ == old(self)@.free_result(
                page.align.power - MIN_PAGE_SHIFT,
                page.addr as int,
            ),
            page.align.power - MIN_PAGE_SHIFT <= MAX_ORDER ==> final(self)@.available_size
                - final(self)@.free_size() == old(self)@.available_size - old(self)@.free_size(),
            old(self)@.coalesced() ==> final(self)@.coalesced(),
            page.align.power - MIN_PAGE_SHIFT <= MAX_ORDER ==> forall|x: int|
                #[trigger] final(self)@.holds(x) == (old(self)@.holds(x) || (page.addr <= x < page.addr
                    + block_size(page.align.power - MIN_PAGE_SHIFT))),
            page.align.power - MIN_PAGE_SHIFT <= MAX_ORDER ==> forall|p: int, b: int|
                0 <= p <= MAX_ORDER && #[trigger] old(self)@.apart_from_free(p, b) && BuddyView::apart(
                    p,
                    b,
                    page.align.power - MIN_PAGE_SHIFT,
                    page.addr as int,
                ) ==> final(self)@.apart_from_free(p, b),
            page.align.power - MIN_PAGE_SHIFT > MAX_ORDER ==> final(self)@ == (BuddyView {
                available_size: old(self)@.available_size + page.align.spec_size(),
                ..old(self)@
            }),
    {
        let page_addr = page.addr;
        let order = (page.align.as_power() - MIN_PAGE_SHIFT as u32) as usize;
        if order <= MAX_ORDER {
            proof {
                lemma_block_size_shift(order as int);
            }
            self.merge(order, page_addr);
        }
        let ghost v = self@;
        self.available_size += page.align.as_size();
        proof {
            assert(self@.queues == v.queues);
            assert forall|x: int| #[trigger] self@.holds(x) == v.holds(x) by {
                if self@.holds(x) {
                    let (p, j) = choose|p: int, j: int|
                        0 <= p <= MAX_ORDER && 0 <= j < self@.queues[p].len() && #[trigger] self@.queues[p][j]
                            <= x < self@.queues[p][j] + block_size(p);
                    assert(v.queues[p][j] <= x < v.queues[p][j] + block_size(p));
                }
                if v.holds(x) {
                    let (p, j) = choose|p: int, j: int|
                        0 <= p <= MAX_ORDER && 0 <= j < v.queues[p].len() && #[trigger] v.queues[p][j] <= x
                            < v.queues[p][j] + block_size(p);
                    assert(self@.queues[p][j] <= x < self@.queues[p][j] + block_size(p));
                }
            }
            if order <= MAX_ORDER {
                old(self)@.lemma_apart_kept_grow(self@, order as int, page_addr as int);
            }
        }
        Ok(())
    }
}

} // verus!
