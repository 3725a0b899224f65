use vstd::prelude::*;
use crate::sizes::{
    block_size, buddy_of, lemma_aligned_absolute, lemma_aligned_down, lemma_block_size_bounds_any,
    lemma_block_size_divides, lemma_block_size_positive, lemma_buddy_pair, lemma_buddy_relative,
    lemma_lower_buddy, max_block_size, MAX_ORDER,
};
use crate::state::{lemma_first_nonempty_found, BuddyView};

verus! {

broadcast use vstd::seq_lib::group_to_multiset_ensures;

/// The queues during the give-back of the block `a` taken from order `k`
/// and split down to order `o`: the upper halves of orders `j..k` are still
/// free, those below `j` are merged back.
spec fn partly_merged(v: BuddyView, o: int, k: int, j: int) -> BuddyView {
    let a = v.queues[k][0];
    BuddyView {
        queues: Seq::new(
            v.queues.len(),
            |i: int|
                if i == k {
                    v.queues[k].drop_first()
                } else if j <= i < k {
                    v.queues[i].push((a + block_size(i)) as usize)
                } else {
                    v.queues[i]
                },
        ),
        available_size: v.available_size - block_size(o),
        ..v
    }
}

/// Giving back the block taken from order `k` merges it with each upper half
/// from order `j` on, and stops at order `k`.
proof fn lemma_merge_back(v: BuddyView, o: int, k: int, j: int)
    requires
        v.wf(),
        v.coalesced(),
        v.mem_start % max_block_size() == 0,
        0 <= o <= j <= k <= MAX_ORDER,
        v.queues[k].len() > 0,
    ensures
        ({
            let a = v.queues[k][0] as int;
            let s = partly_merged(v, o, k, j);
            &&& s.merge_result(j, a) == partly_merged(v, o, k, k).with_queue(
                k,
                v.queues[k].drop_first().push(a as usize),
            )
            &&& s.merge_stop(j, a) == (k, a)
        }),
    decreases k - j,
{
    let a = v.queues[k][0] as int;
    let s = partly_merged(v, o, k, j);
    assert(v.fits(k, a));
    lemma_aligned_absolute(v.mem_start, a, k);
    lemma_block_size_positive(k);
    if j == k {
        let b = buddy_of(a, k);
        if k < MAX_ORDER && s.is_free(k, b) {
            let i = choose|i: int| 0 <= i < s.queues[k].len() && s.queues[k][i] == b as usize;
            assert(v.queues[k][i + 1] == b as usize);
            lemma_aligned_down(v.mem_start, k + 1, MAX_ORDER as int);
            lemma_buddy_relative(v.mem_start, a, k);
            assert(!v.is_free(k, v.buddy_in_region(v.queues[k][0] as int, k)));
            assert(v.queues[k].contains(b as usize));
        }
    } else {
        let bj = block_size(j);
        lemma_block_size_positive(j);
        lemma_lower_buddy(a, j, k);
        lemma_block_size_divides(j + 1, k);
        let b = buddy_of(a, j);
        assert(b == a + bj);
        let q = v.queues[j];
        let qb = q.push(b as usize);
        assert(s.queues[j] == qb);
        // the upper half is no free block of the state before the split
        assert(!q.contains(b as usize)) by {
            if q.contains(b as usize) {
                let i = choose|i: int| 0 <= i < q.len() && q[i] == b as usize;
                assert(BuddyView::apart(k, a, j, q[i] as int));
                assert(block_size(j) < block_size(k)) by {
                    lemma_block_size_divides(j + 1, k);
                }
            }
        }
        let idx = qb.index_of(b as usize);
        assert(qb[q.len() as int] == b as usize);
        assert(idx == q.len()) by {
            if idx != q.len() {
                assert(q[idx] == b as usize);
            }
        }
        assert(qb.remove(idx) =~= q);
        assert(s.is_free(j, b));
        assert(s.without(j, b) =~= partly_merged(v, o, k, j + 1)) by {
            assert(s.without(j, b).queues =~= partly_merged(v, o, k, j + 1).queues);
        }
        lemma_merge_back(v, o, k, j + 1);
    }
}

/// Handing out a block and giving it straight back leaves every free queue
/// holding the same blocks, the block given back at the back of its queue,
/// and the same count of available bytes: a free block that was split is
/// merged back whole. It holds when the region starts on a boundary of a
/// largest block and free buddies are merged, except when the block is a
/// largest block whose buddy would start below the region.
pub proof fn lemma_alloc_free_roundtrip(v: BuddyView, o: int)
    requires
        v.wf(),
        v.coalesced(),
        v.mem_start % max_block_size() == 0,
        0 <= o <= MAX_ORDER,
        v.first_nonempty(o) is Some,
        v.first_nonempty(o) == Some(MAX_ORDER as int) ==> buddy_of(
            v.queues[MAX_ORDER as int][0] as int,
            MAX_ORDER as int,
        ) >= v.mem_start,
    ensures
        ({
            let (v1, r) = v.alloc_result(o);
            let v2 = v1.free_result(o, r->0 as int);
            &&& v1.can_free(o, r->0 as int)
            &&& forall|p: int|
                0 <= p <= MAX_ORDER ==> #[trigger] v2.queues[p].to_multiset()
                    == v.queues[p].to_multiset()
            &&& v2.available_size == v.available_size
            &&& v2.mem_start == v.mem_start
            &&& v2.total_size == v.total_size
        }),
{
    lemma_first_nonempty_found(v, o);
    let k = v.first_nonempty(o)->0;
    let a = v.queues[k][0] as int;
    let (v1, r) = v.alloc_result(o);
    assert(r == Some(a as usize));
    let s = partly_merged(v, o, k, o);
    assert(v1 =~= s) by {
        assert(v1.queues =~= s.queues);
    }
    lemma_merge_back(v, o, k, o);
    // the block handed out can be given back
    assert(v.fits(k, a));
    lemma_block_size_divides(o, k);
    lemma_aligned_down(a - v.mem_start, o, k);
    lemma_block_size_positive(o);
    assert(v1.fits(o, a));
    assert(a != 0) by {
        assert(v.queues[k].no_duplicates());
        assert(v.queues[k].contains(a as usize));
    }
    assert forall|p: int, j: int|
        0 <= p <= MAX_ORDER && 0 <= j < v1.queues[p].len() implies #[trigger] BuddyView::apart(
        o,
        a,
        p,
        v1.queues[p][j] as int,
    ) by {
        lemma_block_size_positive(p);
        if p == k {
            assert(v1.queues[p][j] == v.queues[k][j + 1]);
            assert(BuddyView::apart(k, v.queues[k][0] as int, k, v.queues[k][j + 1] as int));
        } else if o <= p < k {
            if j < v.queues[p].len() {
                assert(v1.queues[p][j] == v.queues[p][j]);
                assert(BuddyView::apart(k, v.queues[k][0] as int, p, v.queues[p][j] as int));
            } else {
                lemma_block_size_divides(o, p);
                lemma_block_size_divides(p, k);
                assert(v1.queues[p][j] == (a + block_size(p)) as usize);
                assert(v1.queues[p][j] as int == a + block_size(p));
            }
        } else {
            assert(v1.queues[p][j] == v.queues[p][j]);
            assert(BuddyView::apart(k, v.queues[k][0] as int, p, v.queues[p][j] as int));
        }
    }
    assert(v1.can_free(o, a));
    let v2 = v1.free_result(o, a);
    let dk = v.queues[k].drop_first().push(a as usize);
    assert forall|p: int| 0 <= p <= MAX_ORDER implies #[trigger] v2.queues[p].to_multiset()
        == v.queues[p].to_multiset() by {
        if p == k {
            assert(v2.queues[p] == dk);
            assert(v.queues[k].drop_first() =~= v.queues[k].remove(0));
            assert(v.queues[k].contains(a as usize));
            assert(v.queues[k].to_multiset().count(a as usize) > 0);
            assert(dk.to_multiset() =~= v.queues[k].to_multiset());
        } else {
            assert(v2.queues[p] == v.queues[p]);
        }
    }
}

/// A request for a block of order `o` is refused exactly when no free block
/// of order `o` or above is left; then nothing changes.
pub proof fn lemma_alloc_refused_iff_exhausted(v: BuddyView, o: int)
    requires
        0 <= o <= MAX_ORDER,
    ensures
        (v.alloc_result(o).1 is None) == (forall|k: int|
            o <= k <= MAX_ORDER ==> #[trigger] v.queues[k].len() == 0),
        v.alloc_result(o).1 is None ==> v.alloc_result(o).0 == v,
{
    if v.first_nonempty(o) is Some {
        lemma_first_nonempty_found(v, o);
        let k = v.first_nonempty(o)->0;
        assert(v.queues[k].len() > 0);
    } else {
        assert forall|k: int| o <= k <= MAX_ORDER implies #[trigger] v.queues[k].len() == 0 by {
            if v.queues[k].len() > 0 {
                crate::state::lemma_first_nonempty_some(v, o, k);
            }
        }
    }
}

/// The merging of the block of order `o` at `a` ends with a block of the
/// region that holds it.
proof fn lemma_merge_stop_holds(v: BuddyView, o: int, a: int)
    requires
        0 <= o <= MAX_ORDER,
        v.mem_start >= 0,
        v.mem_start % max_block_size() == 0,
        a >= v.mem_start,
        (a - v.mem_start) % block_size(o) == 0,
    ensures
        ({
            let (k, s) = v.merge_stop(o, a);
            &&& o <= k <= MAX_ORDER
            &&& v.mem_start <= s <= a
            &&& (s - v.mem_start) % block_size(k) == 0
            &&& a + block_size(o) <= s + block_size(k)
        }),
    decreases MAX_ORDER + 1 - o,
{
    let b = buddy_of(a, o);
    if o < MAX_ORDER && v.is_free(o, b) {
        lemma_aligned_down(v.mem_start, o + 1, MAX_ORDER as int);
        lemma_buddy_pair(v.mem_start, a, o);
        lemma_block_size_bounds_any(o);
        let low = if a < b { a } else { b };
        lemma_merge_stop_holds(v.without(o, b), o + 1, low);
    }
}

/// A block that was handed out can be given back for as long as no free
/// block overlaps it: in a region that starts on a boundary of a largest
/// block, a non-zero aligned block of the region that overlaps no free block
/// passes the check of `free_pages`, unless it lies in the first largest
/// block of a region that starts on an odd multiple of the largest size.
pub proof fn lemma_handed_out_can_free(v: BuddyView, o: int, a: int)
    requires
        v.mem_start >= 0,
        v.mem_start % max_block_size() == 0,
        0 <= o <= MAX_ORDER,
        a != 0,
        v.fits(o, a),
        v.apart_from_free(o, a),
        (v.mem_start / max_block_size()) % 2 == 0 || a >= v.mem_start + max_block_size(),
    ensures
        v.can_free(o, a),
{
    let m = max_block_size();
    let ms = v.mem_start;
    lemma_merge_stop_holds(v, o, a);
    lemma_block_size_positive(o);
    lemma_block_size_positive(MAX_ORDER as int);
    let (k, s) = v.merge_stop(o, a);
    if k == MAX_ORDER {
        if s - ms < m {
            vstd::arithmetic::div_mod::lemma_small_mod((s - ms) as nat, m as nat);
        }
        if a >= ms + m {
            assert(s - ms >= m);
        } else {
            assert(s == ms);
        }
        assert(buddy_of(s, MAX_ORDER as int) >= ms);
    }
}

} // verus!
