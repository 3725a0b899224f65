use vstd::prelude::*;

verus! {

/// A FIFO queue of free page addresses.
///
/// Each page can be in the queue at most once, and the address `0` is
/// reserved to mean "no page", so it never enters the queue.
#[derive(Debug)]
pub struct PageQueue {
    nodes: Vec<usize>,
}

impl View for PageQueue {
    type V = Seq<usize>;

    closed spec fn view(&self) -> Seq<usize> {
        self.nodes@
    }
}

impl Default for PageQueue {
    /// An empty queue.
    fn default() -> (q: Self)
        ensures
            q@ == Seq::<usize>::empty(),
            q.wf(),
    {
        PageQueue::new()
    }
}

impl PageQueue {
    /// The queue holds distinct, non-zero addresses.
    pub open spec fn wf(&self) -> bool {
        &&& self@.no_duplicates()
        &&& !self@.contains(0)
    }

    /// An empty queue.
    pub fn new() -> (q: Self)
        ensures
            q@ == Seq::<usize>::empty(),
            q.wf(),
    {
        PageQueue { nodes: Vec::new() }
    }

    /// Appends `node_addr` at the back of the queue.
    pub fn enqueue(&mut self, node_addr: usize)
        requires
            old(self).wf(),
            node_addr != 0,
            !old(self)@.contains(node_addr),
        ensures
            final(self)@ == old(self)@.push(node_addr),
            final(self).wf(),
    {
        self.nodes.push(node_addr);
        proof {
            assert forall|i: int, j: int|
                0 <= i < self@.len() && 0 <= j < self@.len() && i != j implies self@[i] != self@[j] by {
                if i < old(self)@.len() && j < old(self)@.len() {
                    assert(old(self)@[i] == self@[i]);
                } else if i < old(self)@.len() {
                    assert(old(self)@.contains(self@[i]));
                } else if j < old(self)@.len() {
                    assert(old(self)@.contains(self@[j]));
                }
            }
            if self@.contains(0) {
                let k = choose|k: int| 0 <= k < self@.len() && self@[k] == 0;
                if k < old(self)@.len() {
                    assert(old(self)@[k] == 0);
                }
            }
        }
    }

    /// Removes and returns the address at the front of the queue, or `0`
    /// when the queue is empty.
    pub fn dequeue(&mut self) -> (addr: usize)
        requires
            old(self).wf(),
        ensures
            final(self).wf(),
            old(self)@.len() == 0 ==> addr == 0 && final(self)@ == old(self)@,
            old(self)@.len() > 0 ==> addr == old(self)@[0] && final(self)@ == old(self)@.drop_first(),
    {
        if self.nodes.len() == 0 {
            return 0;
        }
        let addr = self.nodes.remove(0);
        proof {
            assert(self@ =~= old(self)@.drop_first());
            if self@.contains(0) {
                let k = choose|k: int| 0 <= k < self@.len() && self@[k] == 0;
                assert(old(self)@[k + 1] == 0);
            }
        }
        addr
    }

    /// Whether the queue holds no address.
    pub fn empty(&self) -> (r: bool)
        ensures
            r == (self@.len() == 0),
    {
        self.nodes.len() == 0
    }

    /// Unlinks `node_addr` from the queue; the other addresses keep their order.
    pub fn remove(&mut self, node_addr: usize)
        requires
            old(self).wf(),
            old(self)@.contains(node_addr),
        ensures
            final(self).wf(),
            final(self)@ == old(self)@.remove(old(self)@.index_of(node_addr)),
    {
        let ghost k = old(self)@.index_of(node_addr);
        let mut i: usize = 0;
        while self.nodes[i] != node_addr
            invariant
                self@ == old(self)@,
                0 <= i <= k,
                old(self)@[k] == node_addr,
                0 <= k < old(self)@.len(),
                k < self.nodes.len(),
                forall|j: int| 0 <= j < i ==> self@[j] != node_addr,
            decreases k - i,
        {
            assert(i != k);
            i = i + 1;
        }
        proof {
            assert(i == k) by {
                if i < k {
                    assert(old(self)@[i as int] == old(self)@[k]);
                }
            }
        }
        self.nodes.remove(i);
        proof {
            let s = old(self)@.remove(k);
            assert(self@ =~= s);
            assert forall|a: int, b: int|
                0 <= a < s.len() && 0 <= b < s.len() && a != b implies s[a] != s[b] by {
                let a2 = if a < k { a } else { a + 1 };
                let b2 = if b < k { b } else { b + 1 };
                assert(s[a] == old(self)@[a2]);
                assert(s[b] == old(self)@[b2]);
            }
            if s.contains(0) {
                let z = choose|z: int| 0 <= z < s.len() && s[z] == 0;
                let z2 = if z < k { z } else { z + 1 };
                assert(old(self)@[z2] == 0);
            }
        }
    }
}

} // verus!
