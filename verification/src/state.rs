use vstd::prelude::*;
use crate::bits::bytes_for_bits;
use crate::sizes::{
    block_size, buddy_of, lemma_aligned_absolute, lemma_block_size_bounds, lemma_block_size_bounds_any,
    lemma_block_size_positive, lemma_buddy_involution, max_block_size, MAX_ORDER, MIN_PAGE_SIZE,
};

verus! {

/// Sum of the sizes of the blocks held by the first `n` queues, where queue
/// `o` holds blocks of order `o`.
pub open spec fn queues_size(queues: Seq<Seq<usize>>, n: int) -> int
    decreases n,
{
    if n <= 0 {
        0
    } else {
        queues_size(queues, n - 1) + queues[n - 1].len() * block_size(n - 1)
    }
}

/// The abstract state of a buddy allocator: one queue of free block addresses
/// per order, the managed region and the count of available bytes.
pub struct BuddyView {
    pub queues: Seq<Seq<usize>>,
    pub mem_start: int,
    pub total_size: int,
    pub available_size: int,
}

impl BuddyView {
    /// One past the last byte of the managed region.
    pub open spec fn end(self) -> int {
        self.mem_start + self.total_size
    }

    /// Whether the block of order `o` at `a` is in the free queue of its order.
    pub open spec fn is_free(self, o: int, a: int) -> bool {
        self.queues[o].contains(a as usize)
    }

    /// Whether a block of order `o` at `a` is aligned to its size, relative to
    /// the start of the region, and lies inside the region.
    pub open spec fn fits(self, o: int, a: int) -> bool {
        &&& 0 <= o <= MAX_ORDER
        &&& self.mem_start <= a
        &&& (a - self.mem_start) % block_size(o) == 0
        &&& a + block_size(o) <= self.end()
    }

    /// Whether the byte ranges `[a, a + block_size(o))` and `[b, b + block_size(p))`
    /// do not overlap.
    pub open spec fn apart(o: int, a: int, p: int, b: int) -> bool {
        a + block_size(o) <= b || b + block_size(p) <= a
    }

    /// Whether the block of order `o` at `a` overlaps no free block.
    pub open spec fn apart_from_free(self, o: int, a: int) -> bool {
        forall|p: int, j: int|
            0 <= p <= MAX_ORDER && 0 <= j < self.queues[p].len() ==> #[trigger] Self::apart(
                o,
                a,
                p,
                self.queues[p][j] as int,
            )
    }

    /// Total size of the free blocks.
    pub open spec fn free_size(self) -> int {
        queues_size(self.queues, MAX_ORDER + 1)
    }

    /// The queue of order `o` replaced by `q`.
    pub open spec fn with_queue(self, o: int, q: Seq<usize>) -> BuddyView {
        BuddyView { queues: self.queues.update(o, q), ..self }
    }

    /// The free blocks are well placed: each queue holds distinct non-zero
    /// addresses of blocks that fit in the region.
    pub open spec fn placed(self) -> bool {
        &&& self.queues.len() == MAX_ORDER + 1
        &&& self.mem_start >= 0
        &&& self.total_size >= 0
        &&& self.end() <= usize::MAX
        &&& forall|o: int|
            0 <= o <= MAX_ORDER ==> #[trigger] self.queues[o].no_duplicates()
                && !self.queues[o].contains(0)
        &&& forall|o: int, i: int|
            0 <= o <= MAX_ORDER && 0 <= i < self.queues[o].len() ==> self.fits(
                o,
                #[trigger] self.queues[o][i] as int,
            )
    }

    /// No two free blocks overlap.
    pub open spec fn disjoint(self) -> bool {
        forall|o: int, i: int, p: int, j: int|
            0 <= o <= MAX_ORDER && 0 <= i < self.queues[o].len() && 0 <= p <= MAX_ORDER && 0 <= j
                < self.queues[p].len() && (o != p || i != j) ==> Self::apart(
                o,
                #[trigger] self.queues[o][i] as int,
                p,
                #[trigger] self.queues[p][j] as int,
            )
    }

    /// The least order from `o` up whose free queue is not empty.
    pub open spec fn first_nonempty(self, o: int) -> Option<int>
        decreases MAX_ORDER + 1 - o,
    {
        if o < 0 || o > MAX_ORDER {
            None
        } else if self.queues[o].len() > 0 {
            Some(o)
        } else {
            self.first_nonempty(o + 1)
        }
    }

    /// The queues after taking the first free block `a` of order `k` and
    /// returning its upper halves of orders `o..k` to the free queues, so that
    /// the block of order `o` at `a` remains.
    pub open spec fn carve(self, o: int, k: int) -> Seq<Seq<usize>> {
        let a = self.queues[k][0];
        Seq::new(
            self.queues.len(),
            |j: int|
                if j == k {
                    self.queues[k].drop_first()
                } else if o <= j < k {
                    self.queues[j].push((a + block_size(j)) as usize)
                } else {
                    self.queues[j]
                },
        )
    }

    /// The state after a request for a block of order `o`, and the address of
    /// the block handed out, if any: the first free block of the least order
    /// `k >= o` that has one is split down to order `o`.
    pub open spec fn alloc_result(self, o: int) -> (BuddyView, Option<usize>) {
        match self.first_nonempty(o) {
            None => (self, None),
            Some(k) => (
                BuddyView {
                    queues: self.carve(o, k),
                    available_size: self.available_size - block_size(o),
                    ..self
                },
                Some(self.queues[k][0]),
            ),
        }
    }

    /// The queue of order `o` without the free block at `b`.
    pub open spec fn without(self, o: int, b: int) -> BuddyView {
        self.with_queue(o, self.queues[o].remove(self.queues[o].index_of(b as usize)))
    }

    /// The state after returning the block of order `o` at `a`: while its
    /// buddy is free (below the largest order), the buddy leaves its queue and
    /// the pair is taken as one block of the next order; the resulting block
    /// joins the back of the queue of its order.
    pub open spec fn merge_result(self, o: int, a: int) -> BuddyView
        decreases MAX_ORDER + 1 - o,
    {
        if o < 0 || o > MAX_ORDER {
            self
        } else {
            let b = buddy_of(a, o);
            if o < MAX_ORDER && self.is_free(o, b) {
                self.without(o, b).merge_result(o + 1, if a < b { a } else { b })
            } else {
                self.with_queue(o, self.queues[o].push(a as usize))
            }
        }
    }

    /// The order and address of the block that the merging of the block of
    /// order `o` at `a` ends with.
    pub open spec fn merge_stop(self, o: int, a: int) -> (int, int)
        decreases MAX_ORDER + 1 - o,
    {
        if o < 0 || o > MAX_ORDER {
            (o, a)
        } else {
            let b = buddy_of(a, o);
            if o < MAX_ORDER && self.is_free(o, b) {
                self.without(o, b).merge_stop(o + 1, if a < b { a } else { b })
            } else {
                (o, a)
            }
        }
    }

    /// The state after the block of order `o` at `a` is given back.
    pub open spec fn free_result(self, o: int, a: int) -> BuddyView {
        BuddyView {
            available_size: self.available_size + block_size(o),
            ..self.merge_result(o, a)
        }
    }

    /// Whether the block of order `o` at `a` can be given back: the region
    /// starts on a boundary of a largest block, so that buddies are found by
    /// their address; the block is a non-zero aligned block of the region that
    /// overlaps no free block; and if its merging reaches the largest order,
    /// the buddy at that order does not start below the region.
    pub open spec fn can_free(self, o: int, a: int) -> bool {
        &&& self.mem_start % max_block_size() == 0
        &&& a != 0
        &&& self.fits(o, a)
        &&& self.apart_from_free(o, a)
        &&& self.merge_stop(o, a).0 == MAX_ORDER ==> buddy_of(self.merge_stop(o, a).1, MAX_ORDER as int)
            >= self.mem_start
    }

    /// The invariant of the allocator's state: free blocks are placed in the
    /// region, do not overlap, and the available count covers them.
    pub open spec fn wf(self) -> bool {
        &&& self.placed()
        &&& self.disjoint()
        &&& self.free_size() <= self.available_size <= usize::MAX
    }
}

/// Changing one queue changes the total size by the change of its length
/// times the size of its blocks.
pub proof fn lemma_queues_size_update(queues: Seq<Seq<usize>>, o: int, q: Seq<usize>, n: int)
    requires
        0 <= o < queues.len(),
        n <= queues.len(),
    ensures
        queues_size(queues.update(o, q), n) == queues_size(queues, n) + (if o < n {
            (q.len() - queues[o].len()) * block_size(o)
        } else {
            0
        }),
    decreases n,
{
    if n > 0 {
        lemma_queues_size_update(queues, o, q, n - 1);
        if n - 1 == o {
            let b = block_size(o);
            let l1 = queues[o].len() as int;
            let l2 = q.len() as int;
            assert(l2 * b == l1 * b + (l2 - l1) * b) by (nonlinear_arith);
        }
    }
}

/// The first non-empty queue from `s` up is the first one after the empty ones.
pub proof fn lemma_first_nonempty(v: BuddyView, s: int, k: int)
    requires
        0 <= s <= k <= MAX_ORDER,
        forall|j: int| s <= j < k ==> v.queues[j].len() == 0,
        v.queues[k].len() > 0,
    ensures
        v.first_nonempty(s) == Some(k),
    decreases k - s,
{
    if s < k {
        lemma_first_nonempty(v, s + 1, k);
    }
}

/// When every queue from `s` up is empty there is no first non-empty one.
pub proof fn lemma_first_nonempty_none(v: BuddyView, s: int)
    requires
        0 <= s,
        forall|j: int| s <= j <= MAX_ORDER ==> v.queues[j].len() == 0,
    ensures
        v.first_nonempty(s) is None,
    decreases MAX_ORDER + 1 - s,
{
    if s <= MAX_ORDER {
        lemma_first_nonempty_none(v, s + 1);
    }
}

/// The first non-empty queue from `s` up is non-empty, and no earlier one is.
pub proof fn lemma_first_nonempty_found(v: BuddyView, s: int)
    requires
        0 <= s,
        v.first_nonempty(s) is Some,
    ensures
        s <= v.first_nonempty(s)->0 <= MAX_ORDER,
        v.queues[v.first_nonempty(s)->0].len() > 0,
        forall|j: int| s <= j < v.first_nonempty(s)->0 ==> v.queues[j].len() == 0,
    decreases MAX_ORDER + 1 - s,
{
    if s <= MAX_ORDER && v.queues[s].len() == 0 {
        lemma_first_nonempty_found(v, s + 1);
    }
}

/// A non-empty queue at or above `s` makes the first non-empty one exist.
pub proof fn lemma_first_nonempty_some(v: BuddyView, s: int, k: int)
    requires
        0 <= s <= k <= MAX_ORDER,
        v.queues[k].len() > 0,
    ensures
        v.first_nonempty(s) is Some,
    decreases k - s,
{
    if s < k && v.queues[s].len() == 0 {
        lemma_first_nonempty_some(v, s + 1, k);
    }
}

/// The free size counts every block of each queue.
pub proof fn lemma_queues_size_ge(queues: Seq<Seq<usize>>, o: int, n: int)
    requires
        0 <= o < n,
    ensures
        queues_size(queues, n) >= queues[o].len() * block_size(o),
        queues_size(queues, n) >= 0,
    decreases n,
{
    lemma_block_size_positive(n - 1);
    let t = queues[n - 1].len() * block_size(n - 1);
    assert(t >= 0) by (nonlinear_arith)
        requires
            block_size(n - 1) >= 4096,
            t == queues[n - 1].len() * block_size(n - 1),
    ;
    assert(queues_size(queues, n) == queues_size(queues, n - 1) + t);
    if n - 1 > o {
        lemma_queues_size_ge(queues, o, n - 1);
    } else {
        lemma_queues_size_nonneg(queues, n - 1);
    }
}

pub proof fn lemma_queues_size_nonneg(queues: Seq<Seq<usize>>, n: int)
    ensures
        queues_size(queues, n) >= 0,
    decreases n,
{
    if n > 0 {
        lemma_block_size_positive(n - 1);
        let t = queues[n - 1].len() * block_size(n - 1);
        assert(t >= 0) by (nonlinear_arith)
            requires
                block_size(n - 1) >= 4096,
                t == queues[n - 1].len() * block_size(n - 1),
        ;
        lemma_queues_size_nonneg(queues, n - 1);
    }
}

/// Bytes taken by the bitmaps of the orders below `n` for a region of
/// `total` bytes: one bit per block of each order.
pub open spec fn bitmaps_size(total: int, n: int) -> int
    decreases n,
{
    if n <= 0 {
        0
    } else {
        bitmaps_size(total, n - 1) + bytes_for_bits(total / block_size(n - 1))
    }
}

/// The bitmaps of the orders below `n` take no more room than those below `m`.
pub proof fn lemma_bitmaps_size_mono(total: int, n: int, m: int)
    requires
        total >= 0,
        0 <= n <= m,
    ensures
        0 <= bitmaps_size(total, n) <= bitmaps_size(total, m),
    decreases m,
{
    if m > n {
        lemma_bitmaps_size_mono(total, n, m - 1);
        lemma_block_size_positive(m - 1);
        assert(total / block_size(m - 1) >= 0) by (nonlinear_arith)
            requires
                total >= 0,
                block_size(m - 1) > 0,
        ;
    } else {
        lemma_bitmaps_size_nonneg(total, n);
    }
}

/// The bitmaps take no negative room.
pub proof fn lemma_bitmaps_size_nonneg(total: int, n: int)
    requires
        total >= 0,
    ensures
        0 <= bitmaps_size(total, n),
    decreases n,
{
    if n > 0 {
        lemma_bitmaps_size_nonneg(total, n - 1);
        lemma_block_size_positive(n - 1);
        assert(total / block_size(n - 1) >= 0) by (nonlinear_arith)
            requires
                total >= 0,
                block_size(n - 1) > 0,
        ;
    }
}

/// Every block laid from the top down above `limit` lies at or above `limit`,
/// as do the blocks already queued.
proof fn lemma_fill_down_above(q: Seq<Seq<usize>>, top: int, limit: int, order: int)
    requires
        0 <= limit,
        top <= usize::MAX,
        order <= MAX_ORDER,
        q.len() == MAX_ORDER + 1,
        forall|p: int, j: int| 0 <= p < q.len() && 0 <= j < q[p].len() ==> limit <= #[trigger] q[p][j],
    ensures
        ({
            let r = fill_down(q, top, limit, order);
            &&& r.len() == q.len()
            &&& forall|p: int, j: int|
                0 <= p < r.len() && 0 <= j < r[p].len() ==> limit <= #[trigger] r[p][j]
        }),
    decreases top - limit, order,
{
    if top <= limit || order < 0 {
    } else if top - block_size(order) >= limit {
        lemma_block_size_positive(order);
        let x = top - block_size(order);
        let q1 = q.update(order, q[order].push(x as usize));
        assert forall|p: int, j: int|
            0 <= p < q1.len() && 0 <= j < q1[p].len() implies limit <= #[trigger] q1[p][j] by {
            if p == order && j == q[order].len() {
                assert(q1[p][j] == x as usize);
            } else {
                assert(q1[p][j] == q[p][j]);
            }
        }
        lemma_fill_down_above(q1, x, limit, order);
    } else if order > 0 {
        lemma_fill_down_above(q, top, limit, order - 1);
    }
}

/// Every largest block laid from `addr` up lies at or above `lo`, as do the
/// blocks already queued.
proof fn lemma_fill_up_above(q: Seq<Seq<usize>>, addr: int, count: int, lo: int)
    requires
        0 <= lo <= addr,
        count > 0 ==> addr + (count - 1) * max_block_size() <= usize::MAX,
        q.len() == MAX_ORDER + 1,
        forall|p: int, j: int| 0 <= p < q.len() && 0 <= j < q[p].len() ==> lo <= #[trigger] q[p][j],
    ensures
        ({
            let r = fill_up(q, addr, count);
            &&& r.len() == q.len()
            &&& forall|p: int, j: int| 0 <= p < r.len() && 0 <= j < r[p].len() ==> lo <= #[trigger] r[p][j]
        }),
    decreases count,
{
    if count > 0 {
        let m = max_block_size();
        lemma_block_size_positive(MAX_ORDER as int);
        assert((count - 1) * m >= 0) by (nonlinear_arith)
            requires
                count >= 1,
                m > 0,
        ;
        let t = MAX_ORDER as int;
        let q1 = q.update(t, q[t].push(addr as usize));
        assert forall|p: int, j: int|
            0 <= p < q1.len() && 0 <= j < q1[p].len() implies lo <= #[trigger] q1[p][j] by {
            if p == t && j == q[t].len() {
                assert(q1[p][j] == addr as usize);
            } else {
                assert(q1[p][j] == q[p][j]);
            }
        }
        assert(addr + m + (count - 2) * m == addr + (count - 1) * m) by (nonlinear_arith);
        lemma_fill_up_above(q1, addr + m, count - 1, lo);
    }
}

/// The first page after the bitmaps is the least page boundary at or past
/// the end of all of them.
pub proof fn lemma_first_page_past_bitmaps(total: int, start_addr: int)
    ensures
        first_page(total, start_addr) >= start_addr + bitmaps_size(total, MAX_ORDER + 1),
        first_page(total, start_addr) < start_addr + bitmaps_size(total, MAX_ORDER + 1) + 4096,
        first_page(total, start_addr) % 4096 == 0,
{
    let x = start_addr + bitmaps_size(total, MAX_ORDER + 1);
    vstd::arithmetic::div_mod::lemma_fundamental_div_mod(x, 4096);
}

/// Setting the allocator up lays no free block over its bitmaps: every free
/// block starts at or above `start_addr` plus the room that the bitmaps of
/// all orders take.
pub proof fn lemma_init_queues_clear_of_bitmaps(mem_start: int, total: int, start_addr: int)
    requires
        init_accepts(mem_start, total, start_addr),
    ensures
        init_queues(mem_start, total, start_addr).len() == MAX_ORDER + 1,
        forall|p: int, j: int|
            0 <= p <= MAX_ORDER && 0 <= j < init_queues(mem_start, total, start_addr)[p].len()
                ==> start_addr + bitmaps_size(total, MAX_ORDER + 1) <= #[trigger] init_queues(
                mem_start,
                total,
                start_addr,
            )[p][j],
{
    let first = first_page(total, start_addr);
    let m = max_block_size();
    let end = mem_start + total;
    let top = top_start(mem_start, first);
    let count = top_count(top, end);
    lemma_first_page_past_bitmaps(total, start_addr);
    lemma_bitmaps_size_nonneg(total, MAX_ORDER + 1);
    lemma_block_size_bounds(MAX_ORDER as int);
    let e = empty_queues();
    assert(e.len() == MAX_ORDER + 1);
    if first % m != 0 {
        vstd::arithmetic::div_mod::lemma_fundamental_div_mod(first - mem_start, m);
        vstd::arithmetic::div_mod::lemma_mod_bound(first - mem_start, m);
        assert(top > first);
        lemma_fill_down_above(e, top, first, MAX_ORDER - 1);
        let low = fill_down(e, top, first, MAX_ORDER - 1);
        if top < end {
            vstd::arithmetic::div_mod::lemma_fundamental_div_mod(end - top, m);
            let c = (end - top) / m;
            assert(count == c) by {
                vstd::arithmetic::div_mod::lemma_div_multiples_vanish_fancy(c, m - 1, m);
                assert(end - top + m - 1 == m * c + (m - 1));
            }
            assert(top + (count - 1) * m < end) by (nonlinear_arith)
                requires
                    end - top == m * c + 0,
                    count == c,
                    m > 0,
            ;
        }
        lemma_fill_up_above(low, top, count, first);
    } else {
        if first < end {
            assert(top + (count - 1) * m <= top + count * m) by (nonlinear_arith)
                requires
                    m > 0,
            ;
        }
        lemma_fill_up_above(e, top, count, first);
    }
}

/// `x` rounded up to a multiple of the smallest block.
pub open spec fn round_up_page(x: int) -> int {
    if x % (MIN_PAGE_SIZE as int) != 0 {
        (x / (MIN_PAGE_SIZE as int) + 1) * (MIN_PAGE_SIZE as int)
    } else {
        x
    }
}

/// The first page after the bitmaps, which are placed from `start_addr` on.
pub open spec fn first_page(total: int, start_addr: int) -> int {
    round_up_page(start_addr + bitmaps_size(total, MAX_ORDER + 1))
}

/// Where the blocks of the largest order start: at `first` when it is a
/// multiple of the largest block, else at the next boundary of a largest
/// block of the region above `first`.
pub open spec fn top_start(mem_start: int, first: int) -> int {
    if first % max_block_size() != 0 {
        ((first - mem_start) / max_block_size() + 1) * max_block_size() + mem_start
    } else {
        first
    }
}

/// Number of largest blocks laid from `from` while below `end`.
pub open spec fn top_count(from: int, end: int) -> int {
    if from < end {
        (end - from + max_block_size() - 1) / max_block_size()
    } else {
        0
    }
}

/// Queues of free blocks, all empty.
pub open spec fn empty_queues() -> Seq<Seq<usize>> {
    Seq::new((MAX_ORDER + 1) as nat, |o: int| Seq::<usize>::empty())
}

/// The queues after `[limit, top)` is laid with free blocks from the top down,
/// each block the largest that fits, starting at order `order`.
pub open spec fn fill_down(queues: Seq<Seq<usize>>, top: int, limit: int, order: int) -> Seq<
    Seq<usize>,
>
    decreases top - limit, order,
{
    if top <= limit || order < 0 {
        queues
    } else if top - block_size(order) >= limit {
        proof {
            lemma_block_size_positive(order);
        }
        fill_down(
            queues.update(order, queues[order].push((top - block_size(order)) as usize)),
            top - block_size(order),
            limit,
            order,
        )
    } else if order > 0 {
        fill_down(queues, top, limit, order - 1)
    } else {
        queues
    }
}

/// The queue of order `o` left by laying a gap of `gap` bytes above `limit`
/// from the top down: one block, at `limit + gap % block_size(o)`, when bit
/// `o` of the gap counted in smallest blocks is set, and none otherwise.
pub open spec fn down_queue(gap: int, limit: int, o: int) -> Seq<usize> {
    if (gap / block_size(o)) % 2 == 1 {
        seq![(limit + gap % block_size(o)) as usize]
    } else {
        Seq::empty()
    }
}

/// Laying the gap from order `j` down, after the orders above `j` are laid,
/// leaves the queue `down_queue` at every order.
proof fn lemma_fill_down_from(q: Seq<Seq<usize>>, gap: int, limit: int, j: int)
    requires
        0 <= j < MAX_ORDER,
        0 <= gap,
        q.len() == MAX_ORDER + 1,
        forall|o: int| j < o <= MAX_ORDER ==> #[trigger] q[o] == down_queue(gap, limit, o),
        forall|o: int| 0 <= o <= j ==> #[trigger] q[o] == Seq::<usize>::empty(),
    ensures
        ({
            let r = fill_down(q, limit + gap % block_size(j + 1), limit, j);
            &&& r.len() == MAX_ORDER + 1
            &&& forall|o: int| 0 <= o <= MAX_ORDER ==> #[trigger] r[o] == down_queue(gap, limit, o)
        }),
    decreases j,
{
    lemma_block_size_bounds_any(j);
    let b = block_size(j);
    let t = limit + gap % block_size(j + 1);
    vstd::arithmetic::div_mod::lemma_mod_breakdown(gap, b, 2);
    assert(block_size(j + 1) == b * 2);
    let bit = (gap / b) % 2;
    let low = gap % b;
    assert(gap % block_size(j + 1) == b * bit + low);
    assert(0 <= low < b) by {
        vstd::arithmetic::div_mod::lemma_mod_bound(gap, b);
    }
    if bit == 1 {
        assert(b * bit == b) by (nonlinear_arith)
            requires
                bit == 1,
        ;
        let q1 = q.update(j, q[j].push((t - b) as usize));
        assert(t - b == limit + low);
        assert(q1[j] =~= down_queue(gap, limit, j));
        assert(fill_down(q, t, limit, j) == fill_down(q1, t - b, limit, j));
        if j > 0 {
            lemma_block_size_bounds_any(j - 1);
            lemma_fill_down_from(q1, gap, limit, j - 1);
        }
    } else {
        assert(bit == 0);
        assert(b * bit == 0) by (nonlinear_arith)
            requires
                bit == 0,
        ;
        if j > 0 {
            lemma_fill_down_from(q, gap, limit, j - 1);
        }
    }
}

/// Laying the pages from `limit` up to `top`, less than a largest block
/// apart, from the top down with the largest blocks that fit leaves at each
/// order `o` one block exactly when bit `o` of the gap counted in smallest
/// blocks is set, at `limit + (top - limit) % block_size(o)`; no largest block
/// is laid.
pub proof fn lemma_fill_down_direct(top: int, limit: int)
    requires
        limit <= top < limit + max_block_size(),
    ensures
        fill_down(empty_queues(), top, limit, MAX_ORDER - 1).len() == MAX_ORDER + 1,
        forall|o: int|
            0 <= o <= MAX_ORDER ==> #[trigger] fill_down(empty_queues(), top, limit, MAX_ORDER - 1)[o]
                == down_queue(top - limit, limit, o),
        down_queue(top - limit, limit, MAX_ORDER as int) == Seq::<usize>::empty(),
{
    let gap = top - limit;
    let m = max_block_size();
    lemma_block_size_positive(MAX_ORDER as int);
    vstd::arithmetic::div_mod::lemma_small_mod(gap as nat, m as nat);
    vstd::arithmetic::div_mod::lemma_basic_div(gap, m);
    let q = empty_queues();
    assert(q[MAX_ORDER as int] =~= down_queue(gap, limit, MAX_ORDER as int));
    lemma_fill_down_from(q, gap, limit, MAX_ORDER - 1);
}

/// The queues after `count` largest blocks are laid one after the other from
/// `addr` up.
pub open spec fn fill_up(queues: Seq<Seq<usize>>, addr: int, count: int) -> Seq<Seq<usize>>
    decreases count,
{
    if count <= 0 {
        queues
    } else {
        fill_up(
            queues.update(MAX_ORDER as int, queues[MAX_ORDER as int].push(addr as usize)),
            addr + max_block_size(),
            count - 1,
        )
    }
}

/// The free queues laid on the region of `total` bytes from `mem_start`,
/// from its page `first` on: the pages below the first boundary of a largest
/// block are laid from the top down, the rest in largest blocks up to the end
/// of the region.
pub open spec fn fill_queues(mem_start: int, total: int, first: int) -> Seq<Seq<usize>> {
    let top = top_start(mem_start, first);
    let low = if first % max_block_size() != 0 {
        fill_down(empty_queues(), top, first, MAX_ORDER - 1)
    } else {
        empty_queues()
    };
    fill_up(low, top, top_count(top, mem_start + total))
}

/// The free queues right after the allocator is set up on the region of
/// `total` bytes from `mem_start`, with its bitmaps placed at `start_addr`.
pub open spec fn init_queues(mem_start: int, total: int, start_addr: int) -> Seq<Seq<usize>> {
    fill_queues(mem_start, total, first_page(total, start_addr))
}

/// Whether free blocks can be laid from page `first` on: the pages below the
/// first boundary of a largest block lie in the region and the largest blocks
/// stay inside the bitmap of their order and the address space.
pub open spec fn fill_accepts(mem_start: int, total: int, first: int) -> bool {
    let end = mem_start + total;
    let top = top_start(mem_start, first);
    let maxb = max_block_size();
    if first % maxb != 0 {
        &&& first >= mem_start
        &&& top <= end
        &&& (end - top) % maxb == 0
    } else {
        first < end ==> {
            &&& first != 0
            &&& first >= mem_start
            &&& (first - mem_start) / maxb + top_count(first, end) <= total / maxb
            &&& first + top_count(first, end) * maxb <= usize::MAX
        }
    }
}

/// Whether the blocks laid from page `first` on leave no two free buddies
/// below the largest order: the pages below the first boundary of a largest
/// block of the region are fewer than a largest block, or there are none.
pub open spec fn laid_coalesced(mem_start: int, first: int) -> bool {
    (first - mem_start) % max_block_size() != 0 || first % max_block_size() == 0
}

/// Blocks laid in a region that starts on a boundary of a largest block
/// leave no two free buddies below the largest order.
pub proof fn lemma_laid_coalesced_aligned(mem_start: int, first: int)
    requires
        mem_start % max_block_size() == 0,
    ensures
        laid_coalesced(mem_start, first),
{
    let m = max_block_size();
    lemma_block_size_positive(MAX_ORDER as int);
    if (first - mem_start) % m == 0 {
        lemma_mod_combine(first - mem_start, mem_start, m);
        assert(first == (first - mem_start) + mem_start);
    }
}

/// Whether the largest blocks laid from page `first` on start on a boundary
/// of a largest block of the region.
pub open spec fn top_aligned(mem_start: int, first: int) -> bool {
    (top_start(mem_start, first) - mem_start) % max_block_size() == 0
}

/// The arguments with which the allocator can be set up: a page-aligned
/// region, bitmaps that end in the address space, a first page at most at
/// the end of the region, and free blocks that can be laid from it.
pub open spec fn init_accepts(mem_start: int, total: int, start_addr: int) -> bool {
    let first = first_page(total, start_addr);
    &&& mem_start >= 0
    &&& total >= 0
    &&& start_addr >= 0
    &&& mem_start % (MIN_PAGE_SIZE as int) == 0
    &&& total % (MIN_PAGE_SIZE as int) == 0
    &&& start_addr + bitmaps_size(total, MAX_ORDER + 1) <= usize::MAX
    &&& mem_start + total <= usize::MAX
    &&& first <= mem_start + total
    &&& fill_accepts(mem_start, total, first)
}

impl BuddyView {
    /// Whether byte `x` lies in some free block.
    pub open spec fn holds(self, x: int) -> bool {
        exists|o: int, i: int|
            0 <= o <= MAX_ORDER && 0 <= i < self.queues[o].len() && #[trigger] self.queues[o][i] <= x
                < self.queues[o][i] + block_size(o)
    }

    /// The free blocks cover exactly the bytes `lo..hi`.
    pub open spec fn covers(self, lo: int, hi: int) -> bool {
        forall|x: int| lo <= x < hi <==> #[trigger] self.holds(x)
    }
}

/// Empty queues hold no bytes.
pub proof fn lemma_queues_size_empty(queues: Seq<Seq<usize>>, n: int)
    requires
        forall|o: int| 0 <= o < n ==> #[trigger] queues[o].len() == 0,
    ensures
        queues_size(queues, n) == 0,
    decreases n,
{
    if n > 0 {
        lemma_queues_size_empty(queues, n - 1);
        assert(queues[n - 1].len() == 0);
        assert(queues[n - 1].len() * block_size(n - 1) == 0);
    }
}

/// `k` blocks of `m` bytes stay below `len` bytes exactly when `k` is below
/// `len / m` rounded up.
pub proof fn lemma_ceil_count(len: int, m: int, k: int)
    requires
        m > 0,
        len >= 0,
        k >= 0,
    ensures
        (k * m < len) == (k < (len + m - 1) / m),
{
    let c = (len + m - 1) / m;
    vstd::arithmetic::div_mod::lemma_fundamental_div_mod(len + m - 1, m);
    vstd::arithmetic::div_mod::lemma_mod_bound(len + m - 1, m);
    let r = (len + m - 1) % m;
    if k < c {
        assert(k * m < len) by (nonlinear_arith)
            requires
                k < c,
                len + m - 1 == m * c + r,
                0 <= r < m,
                m > 0,
        ;
    } else {
        assert(k * m >= len) by (nonlinear_arith)
            requires
                k >= c,
                len + m - 1 == m * c + r,
                0 <= r < m,
                m > 0,
        ;
    }
}

impl BuddyView {
    /// Adding a free block that overlaps no free block keeps the free blocks
    /// apart.
    pub proof fn lemma_disjoint_push(self, o: int, x: usize)
        requires
            self.queues.len() == MAX_ORDER + 1,
            0 <= o <= MAX_ORDER,
            self.disjoint(),
            self.apart_from_free(o, x as int),
        ensures
            self.with_queue(o, self.queues[o].push(x)).disjoint(),
    {
        let n = self.with_queue(o, self.queues[o].push(x));
        let len = self.queues[o].len();
        assert forall|o1: int, i1: int, p1: int, j1: int|
            0 <= o1 <= MAX_ORDER && 0 <= i1 < n.queues[o1].len() && 0 <= p1 <= MAX_ORDER && 0 <= j1
                < n.queues[p1].len() && (o1 != p1 || i1 != j1) implies BuddyView::apart(
            o1,
            #[trigger] n.queues[o1][i1] as int,
            p1,
            #[trigger] n.queues[p1][j1] as int,
        ) by {
            let new1 = o1 == o && i1 == len;
            let new2 = p1 == o && j1 == len;
            if !new1 {
                assert(n.queues[o1][i1] == self.queues[o1][i1]);
            }
            if !new2 {
                assert(n.queues[p1][j1] == self.queues[p1][j1]);
            }
            if new1 && !new2 {
                assert(BuddyView::apart(o, x as int, p1, self.queues[p1][j1] as int));
            }
            if new2 && !new1 {
                assert(BuddyView::apart(o, x as int, o1, self.queues[o1][i1] as int));
            }
        }
    }

    /// Adding a free block right below or right above the covered bytes
    /// extends the cover by that block.
    pub proof fn lemma_covers_push(self, o: int, x: usize, lo: int, hi: int)
        requires
            self.queues.len() == MAX_ORDER + 1,
            0 <= o <= MAX_ORDER,
            lo <= hi,
            self.covers(lo, hi),
            x as int + block_size(o) == lo || x as int == hi,
        ensures
            x as int + block_size(o) == lo ==> self.with_queue(o, self.queues[o].push(x)).covers(
                x as int,
                hi,
            ),
            x as int == hi ==> self.with_queue(o, self.queues[o].push(x)).covers(
                lo,
                hi + block_size(o),
            ),
    {
        let n = self.with_queue(o, self.queues[o].push(x));
        let len = self.queues[o].len() as int;
        lemma_block_size_positive(o);
        let nlo = if x as int + block_size(o) == lo { x as int } else { lo };
        let nhi = if x as int + block_size(o) == lo { hi } else { hi + block_size(o) };
        assert(n.queues[o][len] == x);
        assert forall|y: int| nlo <= y < nhi <==> #[trigger] n.holds(y) by {
            if nlo <= y < nhi {
                if x <= y < x + block_size(o) {
                    assert(n.queues[o][len] <= y < n.queues[o][len] + block_size(o));
                    assert(n.holds(y));
                } else {
                    assert(lo <= y < hi);
                    assert(self.holds(y));
                    let (p, j) = choose|p: int, j: int|
                        0 <= p <= MAX_ORDER && 0 <= j < self.queues[p].len() && #[trigger] self.queues[p][j]
                            <= y < self.queues[p][j] + block_size(p);
                    assert(n.queues[p][j] == self.queues[p][j]);
                    assert(n.holds(y));
                }
            }
            if n.holds(y) {
                let (p, j) = choose|p: int, j: int|
                    0 <= p <= MAX_ORDER && 0 <= j < n.queues[p].len() && #[trigger] n.queues[p][j] <= y
                        < n.queues[p][j] + block_size(p);
                if !(p == o && j == len) {
                    assert(n.queues[p][j] == self.queues[p][j]);
                    assert(self.holds(y));
                    assert(lo <= y < hi);
                } else {
                    assert(n.queues[p][j] == x);
                    assert(x <= y < x + block_size(o));
                }
                assert(nlo <= y < nhi);
            }
        }
    }

    /// No free block covers no byte.
    pub proof fn lemma_covers_empty(self, lo: int)
        requires
            forall|o: int| 0 <= o <= MAX_ORDER ==> #[trigger] self.queues[o].len() == 0,
        ensures
            self.covers(lo, lo),
    {
        assert forall|y: int| lo <= y < lo <==> #[trigger] self.holds(y) by {
            if self.holds(y) {
                let (p, j) = choose|p: int, j: int|
                    0 <= p <= MAX_ORDER && 0 <= j < self.queues[p].len() && #[trigger] self.queues[p][j]
                        <= y < self.queues[p][j] + block_size(p);
                assert(self.queues[p].len() == 0);
            }
        }
    }
}

/// Sums and differences of multiples of `m` are multiples of `m`.
pub proof fn lemma_mod_combine(x: int, y: int, m: int)
    requires
        m > 0,
        x % m == 0,
        y % m == 0,
    ensures
        (x + y) % m == 0,
        (x - y) % m == 0,
{
    vstd::arithmetic::div_mod::lemma_fundamental_div_mod(x, m);
    vstd::arithmetic::div_mod::lemma_fundamental_div_mod(y, m);
    let a = x / m;
    let b = y / m;
    assert(x + y == (a + b) * m) by (nonlinear_arith)
        requires
            x == m * a + 0,
            y == m * b + 0,
    ;
    assert(x - y == (a - b) * m) by (nonlinear_arith)
        requires
            x == m * a + 0,
            y == m * b + 0,
    ;
    vstd::arithmetic::div_mod::lemma_mod_multiples_basic(a + b, m);
    vstd::arithmetic::div_mod::lemma_mod_multiples_basic(a - b, m);
}

/// A multiple `q * m` followed by `c` blocks of `m` bytes ends inside `total`
/// bytes when `q + c <= total / m`.
pub proof fn lemma_blocks_end(q: int, c: int, m: int, total: int)
    requires
        m > 0,
        total >= 0,
        c >= 0,
        q + c <= total / m,
    ensures
        q * m + c * m <= total,
{
    vstd::arithmetic::div_mod::lemma_fundamental_div_mod(total, m);
    vstd::arithmetic::div_mod::lemma_mod_bound(total, m);
    let t = total / m;
    assert(q * m + c * m <= total) by (nonlinear_arith)
        requires
            q + c <= t,
            total == m * t + total % m,
            total % m >= 0,
            m > 0,
    ;
}

impl BuddyView {
    /// The buddy of the block of order `o` at `a`, counted from the start of
    /// the region.
    pub open spec fn buddy_in_region(self, a: int, o: int) -> int {
        self.mem_start + buddy_of(a - self.mem_start, o)
    }

    /// No free block below the largest order has its buddy in the region
    /// free: free buddies are always merged.
    pub open spec fn coalesced(self) -> bool {
        forall|o: int, i: int|
            0 <= o < MAX_ORDER && 0 <= i < self.queues[o].len() ==> !self.is_free(
                o,
                self.buddy_in_region(#[trigger] self.queues[o][i] as int, o),
            )
    }

    /// Taking blocks out of the queues keeps free buddies merged.
    pub proof fn lemma_coalesced_shrink(self, w: BuddyView)
        requires
            self.coalesced(),
            w.queues.len() == self.queues.len(),
            w.mem_start == self.mem_start,
            forall|o: int, x: usize|
                0 <= o <= MAX_ORDER && #[trigger] w.queues[o].contains(x) ==> self.queues[o].contains(x),
        ensures
            w.coalesced(),
    {
        assert forall|o: int, i: int|
            0 <= o < MAX_ORDER && 0 <= i < w.queues[o].len() implies !w.is_free(
            o,
            w.buddy_in_region(#[trigger] w.queues[o][i] as int, o),
        ) by {
            let x = w.queues[o][i];
            assert(w.queues[o].contains(x));
            let j = choose|j: int| 0 <= j < self.queues[o].len() && self.queues[o][j] == x;
            assert(!self.is_free(o, self.buddy_in_region(self.queues[o][j] as int, o)));
            let b = w.buddy_in_region(x as int, o);
            if w.is_free(o, b) {
                assert(w.queues[o].contains(b as usize));
                assert(self.queues[o].contains(b as usize));
            }
        }
    }

    /// Adding a block whose buddy is not free keeps free buddies merged.
    pub proof fn lemma_coalesced_push(self, o: int, x: usize)
        requires
            self.coalesced(),
            self.placed(),
            0 <= o <= MAX_ORDER,
            self.fits(o, x as int),
            o < MAX_ORDER ==> !self.is_free(o, self.buddy_in_region(x as int, o)),
        ensures
            self.with_queue(o, self.queues[o].push(x)).coalesced(),
    {
        let w = self.with_queue(o, self.queues[o].push(x));
        let len = self.queues[o].len() as int;
        let ms = self.mem_start;
        lemma_block_size_positive(o);
        assert forall|p: int, i: int|
            0 <= p < MAX_ORDER && 0 <= i < w.queues[p].len() implies !w.is_free(
            p,
            w.buddy_in_region(#[trigger] w.queues[p][i] as int, p),
        ) by {
            let y = w.queues[p][i];
            let b = w.buddy_in_region(y as int, p);
            if p != o {
                assert(w.queues[p] == self.queues[p]);
                assert(self.queues[p][i] == y);
            } else {
                if i == len {
                    assert(y == x);
                    lemma_buddy_involution(x - ms, o);
                    if w.is_free(o, b) {
                        let j = choose|j: int| 0 <= j < w.queues[o].len() && w.queues[o][j] == b as usize;
                        if j < len {
                            assert(self.queues[o][j] == b as usize);
                            assert(self.queues[o].contains(b as usize));
                        } else {
                            assert(b as usize == x);
                        }
                    }
                } else {
                    assert(self.queues[o][i] == y);
                    assert(self.fits(o, y as int));
                    lemma_buddy_involution(y - ms, o);
                    assert(!self.is_free(o, b));
                    if w.is_free(o, b) {
                        let j = choose|j: int| 0 <= j < w.queues[o].len() && w.queues[o][j] == b as usize;
                        if j < len {
                            assert(self.queues[o][j] == b as usize);
                        } else {
                            // the new block would be the buddy of `y`, so `y`
                            // would be the buddy of the new block
                            assert(b == x as int);
                            assert(self.buddy_in_region(x as int, o) == y as int);
                            assert(self.queues[o].contains(y));
                        }
                    }
                }
            }
        }
    }
}


impl BuddyView {
    /// Adding a free block adds exactly its bytes to the free bytes.
    pub proof fn lemma_holds_push(self, o: int, x: usize)
        requires
            self.queues.len() == MAX_ORDER + 1,
            0 <= o <= MAX_ORDER,
        ensures
            forall|y: int|
                #[trigger] self.with_queue(o, self.queues[o].push(x)).holds(y) == (self.holds(y) || (x
                    <= y < x + block_size(o))),
    {
        let n = self.with_queue(o, self.queues[o].push(x));
        let len = self.queues[o].len() as int;
        assert forall|y: int| #[trigger] n.holds(y) == (self.holds(y) || (x <= y < x + block_size(o))) by {
            if n.holds(y) {
                let (p, j) = choose|p: int, j: int|
                    0 <= p <= MAX_ORDER && 0 <= j < n.queues[p].len() && #[trigger] n.queues[p][j] <= y
                        < n.queues[p][j] + block_size(p);
                if !(p == o && j == len) {
                    assert(n.queues[p][j] == self.queues[p][j]);
                    assert(self.holds(y));
                }
            }
            if self.holds(y) {
                let (p, j) = choose|p: int, j: int|
                    0 <= p <= MAX_ORDER && 0 <= j < self.queues[p].len() && #[trigger] self.queues[p][j]
                        <= y < self.queues[p][j] + block_size(p);
                assert(n.queues[p][j] == self.queues[p][j]);
                assert(n.holds(y));
            }
            if x <= y < x + block_size(o) {
                assert(n.queues[o][len] == x);
                assert(n.holds(y));
            }
        }
    }

    /// Taking the `i`-th block of order `o` out of its queue takes exactly its
    /// bytes out of the free bytes, when no two free blocks overlap.
    pub proof fn lemma_holds_remove(self, o: int, i: int)
        requires
            self.queues.len() == MAX_ORDER + 1,
            self.disjoint(),
            0 <= o <= MAX_ORDER,
            0 <= i < self.queues[o].len(),
        ensures
            forall|y: int|
                #[trigger] self.with_queue(o, self.queues[o].remove(i)).holds(y) == (self.holds(y) && !(
                self.queues[o][i] <= y < self.queues[o][i] + block_size(o))),
    {
        let n = self.with_queue(o, self.queues[o].remove(i));
        let z = self.queues[o][i] as int;
        assert forall|y: int| #[trigger] n.holds(y) == (self.holds(y) && !(z <= y < z + block_size(o))) by {
            if n.holds(y) {
                let (p, j) = choose|p: int, j: int|
                    0 <= p <= MAX_ORDER && 0 <= j < n.queues[p].len() && #[trigger] n.queues[p][j] <= y
                        < n.queues[p][j] + block_size(p);
                let j0 = if p == o && j >= i { j + 1 } else { j };
                assert(n.queues[p][j] == self.queues[p][j0]);
                assert(self.holds(y));
                assert(BuddyView::apart(p, self.queues[p][j0] as int, o, z));
            }
            if self.holds(y) && !(z <= y < z + block_size(o)) {
                let (p, j) = choose|p: int, j: int|
                    0 <= p <= MAX_ORDER && 0 <= j < self.queues[p].len() && #[trigger] self.queues[p][j]
                        <= y < self.queues[p][j] + block_size(p);
                if p == o {
                    assert(j != i);
                    let j1 = if j < i { j } else { j - 1 };
                    assert(n.queues[p][j1] == self.queues[p][j]);
                } else {
                    assert(n.queues[p][j] == self.queues[p][j]);
                }
                assert(n.holds(y));
            }
        }
    }
}


impl BuddyView {
    /// A block of order `o` at `a` overlaps no free block exactly when none
    /// of its bytes is free.
    pub proof fn lemma_apart_from_free_holds(self, o: int, a: int)
        requires
            0 <= o <= MAX_ORDER,
        ensures
            self.apart_from_free(o, a) <==> forall|x: int|
                a <= x < a + block_size(o) ==> !#[trigger] self.holds(x),
    {
        lemma_block_size_positive(o);
        if self.apart_from_free(o, a) {
            assert forall|x: int| a <= x < a + block_size(o) implies !#[trigger] self.holds(x) by {
                if self.holds(x) {
                    let (p, j) = choose|p: int, j: int|
                        0 <= p <= MAX_ORDER && 0 <= j < self.queues[p].len() && #[trigger] self.queues[p][j]
                            <= x < self.queues[p][j] + block_size(p);
                    assert(Self::apart(o, a, p, self.queues[p][j] as int));
                }
            }
        }
        if forall|x: int| a <= x < a + block_size(o) ==> !#[trigger] self.holds(x) {
            assert forall|p: int, j: int|
                0 <= p <= MAX_ORDER && 0 <= j < self.queues[p].len() implies #[trigger] Self::apart(
                o,
                a,
                p,
                self.queues[p][j] as int,
            ) by {
                let b = self.queues[p][j] as int;
                lemma_block_size_positive(p);
                if !Self::apart(o, a, p, b) {
                    let x = if a < b { b } else { a };
                    assert(self.queues[p][j] <= x < self.queues[p][j] + block_size(p));
                    assert(self.holds(x));
                }
            }
        }
    }

    /// When every byte free in `w` is free in `self`, a block that overlaps
    /// no free block of `self` overlaps none of `w`.
    pub proof fn lemma_apart_kept_shrink(self, w: BuddyView)
        requires
            forall|x: int| #[trigger] w.holds(x) ==> self.holds(x),
        ensures
            forall|p: int, b: int|
                0 <= p <= MAX_ORDER && #[trigger] self.apart_from_free(p, b) ==> w.apart_from_free(p, b),
    {
        assert forall|p: int, b: int|
            0 <= p <= MAX_ORDER && #[trigger] self.apart_from_free(p, b) implies w.apart_from_free(p, b) by {
            self.lemma_apart_from_free_holds(p, b);
            w.lemma_apart_from_free_holds(p, b);
            assert forall|x: int| b <= x < b + block_size(p) implies !#[trigger] w.holds(x) by {
                assert(!self.holds(x));
            }
        }
    }

    /// When every byte free in `w` is free in `self` or lies in the block of
    /// order `o` at `c`, a block that overlaps neither a free block of `self`
    /// nor that block overlaps no free block of `w`.
    pub proof fn lemma_apart_kept_grow(self, w: BuddyView, o: int, c: int)
        requires
            0 <= o <= MAX_ORDER,
            forall|x: int| #[trigger] w.holds(x) ==> self.holds(x) || (c <= x < c + block_size(o)),
        ensures
            forall|p: int, b: int|
                0 <= p <= MAX_ORDER && #[trigger] self.apart_from_free(p, b) && Self::apart(p, b, o, c)
                    ==> w.apart_from_free(p, b),
    {
        assert forall|p: int, b: int|
            0 <= p <= MAX_ORDER && #[trigger] self.apart_from_free(p, b) && Self::apart(
                p,
                b,
                o,
                c,
            ) implies w.apart_from_free(p, b) by {
            self.lemma_apart_from_free_holds(p, b);
            w.lemma_apart_from_free_holds(p, b);
            assert forall|x: int| b <= x < b + block_size(p) implies !#[trigger] w.holds(x) by {
                assert(!self.holds(x));
            }
        }
    }
}

} // verus!
