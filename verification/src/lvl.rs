use vstd::prelude::*;
use crate::node::{block_struct_size, Block};

verus! {

broadcast use vstd::layout::layout_of_primitives;

/// The address of a dangling, well-aligned node: not zero, otherwise
/// unspecified.
///
/// Trusted: calls `core::ptr::NonNull::<Block>::dangling` of the standard
/// library and takes the address of the pointer. The contract claims only
/// that the address is not zero, which every `NonNull` guarantees; the
/// address itself is left unsaid, as the documentation leaves it open.
#[verifier::external_body]
fn dangling_block_addr() -> (addr: usize)
    ensures
        addr != 0,
{
    core::ptr::NonNull::<Block>::dangling().addr().get()
}

/// The heads of the levels of a skip list: `max_level` nodes laid one after
/// the other from the address `bottom`.
pub struct LevelVec {
    bottom: usize,
    max_level: usize,
}

impl LevelVec {
    /// Address of the node of the lowest level.
    pub closed spec fn spec_bottom(&self) -> usize {
        self.bottom
    }

    /// Number of levels.
    pub closed spec fn spec_max_level(&self) -> usize {
        self.max_level
    }

    /// Level heads laid from `addr`, which must not be zero.
    pub fn new(addr: usize, level: usize) -> (v: Self)
        requires
            addr != 0,
        ensures
            v.spec_bottom() == addr,
            v.spec_max_level() == level,
    {
        LevelVec { bottom: addr, max_level: level }
    }

    /// No levels, at a dangling non-zero address.
    pub fn dangling() -> (v: Self)
        ensures
            v.spec_bottom() != 0,
            v.spec_max_level() == 0,
    {
        LevelVec { bottom: dangling_block_addr(), max_level: 0 }
    }

    /// Takes the level heads of the block of index `block_index` at `addr`;
    /// it does nothing yet.
    pub fn from_addr(addr: usize, block_index: usize) {
    }

    /// The addresses of the level heads, from the lowest level up.
    pub fn into_iter(self) -> (it: LevelNodeIter)
        ensures
            it.spec_nodes() == self.spec_bottom(),
            it.spec_max_level() == self.spec_max_level(),
            it.spec_tmp_level() == 0,
    {
        LevelNodeIter { tmp_level: 0, max_level: self.max_level, nodes: self.bottom }
    }
}

/// Walks the level heads of a `LevelVec`, from the lowest level up.
pub struct LevelNodeIter {
    tmp_level: usize,
    max_level: usize,
    nodes: usize,
}

impl LevelNodeIter {
    /// Address of the lowest level head.
    pub closed spec fn spec_nodes(&self) -> usize {
        self.nodes
    }

    /// Number of levels.
    pub closed spec fn spec_max_level(&self) -> usize {
        self.max_level
    }

    /// Level of the next head to hand out.
    pub closed spec fn spec_tmp_level(&self) -> usize {
        self.tmp_level
    }

    /// Address of the head of level `level`.
    pub open spec fn head_addr(&self, level: int) -> int {
        self.spec_nodes() + level * vstd::layout::size_of::<usize>()
    }

    /// One step of the walk from `self` to `after`, handing out `r`: the head
    /// of the current level, and one level up, while levels are left; else
    /// nothing, and the walk stays where it is.
    pub open spec fn next_step(self, after: LevelNodeIter, r: Option<usize>) -> bool {
        &&& after.spec_nodes() == self.spec_nodes()
        &&& after.spec_max_level() == self.spec_max_level()
        &&& self.spec_tmp_level() >= self.spec_max_level() ==> r is None
            && after.spec_tmp_level() == self.spec_tmp_level()
        &&& self.spec_tmp_level() < self.spec_max_level() ==> r == Some(
            self.head_addr(self.spec_tmp_level() as int) as usize,
        ) && after.spec_tmp_level() == self.spec_tmp_level() + 1
    }

    /// The address of the next level head, or `None` past the last level.
    pub fn next(&mut self) -> (r: Option<usize>)
        requires
            old(self).spec_tmp_level() < old(self).spec_max_level() ==> old(self).head_addr(
                old(self).spec_tmp_level() as int,
            ) <= usize::MAX,
        ensures
            old(self).next_step(*final(self), r),
    {
        if self.tmp_level >= self.max_level {
            None
        } else {
            let base = self.nodes;
            let word = block_struct_size();
            proof {
                assert(self.tmp_level * word >= 0) by (nonlinear_arith)
                    requires
                        word > 0,
                ;
            }
            let offset = self.tmp_level * word;
            self.tmp_level = self.tmp_level + 1;
            Some(base + offset)
        }
    }
}

/// A walk of the level heads that starts at the lowest level and takes
/// `m` steps reaches level `min(m, max_level)`, at the same heads.
proof fn lemma_walk_level(walk: Seq<LevelNodeIter>, out: Seq<Option<usize>>, m: int)
    requires
        walk.len() == out.len() + 1,
        walk[0].spec_tmp_level() == 0,
        forall|k: int| 0 <= k < out.len() ==> #[trigger] walk[k].next_step(walk[k + 1], out[k]),
        0 <= m < walk.len(),
    ensures
        walk[m].spec_nodes() == walk[0].spec_nodes(),
        walk[m].spec_max_level() == walk[0].spec_max_level(),
        walk[m].spec_tmp_level() == if m < walk[0].spec_max_level() {
            m
        } else {
            walk[0].spec_max_level() as int
        },
    decreases m,
{
    if m > 0 {
        let k = m - 1;
        lemma_walk_level(walk, out, k);
        assert(walk[k].next_step(walk[k + 1], out[k]));
        assert(walk[k + 1] == walk[m]);
    }
}

/// Walking the level heads from the lowest level hands out, at call `m`,
/// the head of level `m`, one word above the previous one, while `m` is
/// below the number of levels, and nothing from then on.
pub proof fn lemma_walk_yields(walk: Seq<LevelNodeIter>, out: Seq<Option<usize>>)
    requires
        walk.len() == out.len() + 1,
        walk[0].spec_tmp_level() == 0,
        forall|k: int| 0 <= k < out.len() ==> #[trigger] walk[k].next_step(walk[k + 1], out[k]),
    ensures
        forall|m: int|
            0 <= m < out.len() ==> #[trigger] out[m] == if m < walk[0].spec_max_level() {
                Some((walk[0].spec_nodes() + m * vstd::layout::size_of::<usize>()) as usize)
            } else {
                None::<usize>
            },
{
    assert forall|m: int| 0 <= m < out.len() implies #[trigger] out[m] == if m
        < walk[0].spec_max_level() {
        Some((walk[0].spec_nodes() + m * vstd::layout::size_of::<usize>()) as usize)
    } else {
        None::<usize>
    } by {
        lemma_walk_level(walk, out, m);
        assert(walk[m].next_step(walk[m + 1], out[m]));
    }
}

/// The level of a head handed out by a walk of heads laid from a page
/// boundary, within the page, is the level it was handed out at: the head
/// at `b + i * word` has level `i`.
pub proof fn lemma_level_of_head(b: int, i: int, page_size: int)
    requires
        page_size > 0,
        b >= 0,
        b % page_size == 0,
        0 <= i,
        (i + 1) * vstd::layout::size_of::<usize>() <= page_size,
    ensures
        ((b + i * vstd::layout::size_of::<usize>()) % page_size) / (vstd::layout::size_of::<
            usize,
        >() as int) == i,
{
    let w = vstd::layout::size_of::<usize>() as int;
    assert(w > 0);
    vstd::arithmetic::div_mod::lemma_fundamental_div_mod(b, page_size);
    let q = b / page_size;
    assert(i * w < page_size) by (nonlinear_arith)
        requires
            (i + 1) * w <= page_size,
            w > 0,
    ;
    assert(i * w >= 0) by (nonlinear_arith)
        requires
            i >= 0,
            w > 0,
    ;
    vstd::arithmetic::div_mod::lemma_mod_multiples_vanish(q, i * w, page_size);
    vstd::arithmetic::div_mod::lemma_small_mod((i * w) as nat, page_size as nat);
    vstd::arithmetic::div_mod::lemma_div_multiples_vanish(i, w);
    assert(w * i == i * w) by (nonlinear_arith);
}

} // verus!
