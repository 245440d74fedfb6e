//! What follows a sweep: the pages of freed blocks handed back to the host, and
//! the audit of words that still point into them.

use vstd::prelude::*;

use crate::heap::block::Block;
use crate::heap::large::sort_offsets;
use crate::heap::layout::BLOCK_SIZE;
use crate::heap::space::Space;

verus! {

/// Free blocks whose pages are kept.
pub const RESIDENT_TARGET: usize = 16;

/// Those of `freed` whose pages are not handed back already, in order.
pub open spec fn resident(freed: Seq<usize>, blocks: Seq<Block>) -> Seq<usize>
    decreases freed.len(),
{
    if freed.len() == 0 {
        Seq::empty()
    } else {
        let init = resident(freed.drop_last(), blocks);
        if blocks[freed.last() as int / 32768].reusable {
            init
        } else {
            init.push(freed.last())
        }
    }
}

/// How many of the freed blocks may go: those past the free blocks to keep.
pub open spec fn surplus(free: nat, freed: nat) -> nat {
    let n = if free > RESIDENT_TARGET {
        (free - RESIDENT_TARGET) as nat
    } else {
        0
    };
    if n < freed {
        n
    } else {
        freed
    }
}

/// The blocks of a run of `len` bytes from `start` on.
pub open spec fn run_blocks(run: (usize, usize)) -> Seq<usize> {
    Seq::new((run.1 / 32768) as nat, |k: int| (run.0 + k * 32768) as usize)
}

/// The blocks of all the runs.
pub open spec fn blocks_of(runs: Seq<(usize, usize)>) -> Seq<usize>
    decreases runs.len(),
{
    if runs.len() == 0 {
        Seq::empty()
    } else {
        blocks_of(runs.drop_last()) + run_blocks(runs.last())
    }
}

/// Runs of whole blocks, none of which goes on where the one before ends.
pub open spec fn runs_apart(runs: Seq<(usize, usize)>) -> bool {
    &&& forall|i: int|
        0 <= i < runs.len() ==> (#[trigger] runs[i]).1 % 32768 == 0 && runs[i].1 > 0
    &&& forall|i: int|
        0 <= i < runs.len() - 1 ==> (#[trigger] runs[i]).0 + runs[i].1 != runs[i + 1].0
}

impl Space {
    /// The blocks to hand back after a sweep that freed `freed`, in the order
    /// of their addresses: when the process has been quiet, those past the free
    /// blocks that are kept.
    pub fn hand_back(&self, freed: &Vec<usize>, quiet: bool, enabled: bool) -> (r: Vec<usize>)
        requires
            self.tables.inv(),
            forall|i: int|
                0 <= i < freed@.len() ==> (#[trigger] freed@[i]) as int / 32768
                    < self.tables.blocks@.len(),
        ensures
            quiet && enabled ==> r@.to_multiset() == resident(
                freed@.take(surplus(self.free_blocks@.len(), freed@.len()) as int),
                self.tables.blocks@,
            ).to_multiset(),
            !(quiet && enabled) ==> r@.len() == 0,
            forall|i: int, j: int| 0 <= i <= j < r@.len() ==> r@[i] <= r@[j],
    {
        let mut r: Vec<usize> = Vec::new();
        if !quiet || !enabled {
            return r;
        }
        let mut n: usize = if self.free_blocks.len() > RESIDENT_TARGET {
            self.free_blocks.len() - RESIDENT_TARGET
        } else {
            0
        };
        if n > freed.len() {
            n = freed.len();
        }
        let mut i: usize = 0;
        assert(freed@.take(0) =~= Seq::<usize>::empty());
        while i < n
            invariant
                i <= n <= freed.len(),
                forall|k: int|
                    0 <= k < freed@.len() ==> (#[trigger] freed@[k]) as int / 32768
                        < self.tables.blocks@.len(),
                r@ == resident(freed@.take(i as int), self.tables.blocks@),
            decreases n - i,
        {
            assert(freed@.take(i + 1).drop_last() =~= freed@.take(i as int));
            if !self.tables.blocks[freed[i] / BLOCK_SIZE].reusable {
                r.push(freed[i]);
            }
            i = i + 1;
        }
        sort_offsets(&mut r);
        r
    }

    /// Record that the host took the pages of a run: each of its blocks is to be
    /// taken up again before reuse.
    pub fn handed_back(&mut self, start: usize, len: usize)
        requires
            start % 32768 == 0,
            len % 32768 == 0,
            (start + len) / 32768 <= old(self).tables.blocks@.len(),
            start + len <= usize::MAX,
        ensures
            final(self).tables.objects == old(self).tables.objects,
            final(self).tables.alloc_sizes == old(self).tables.alloc_sizes,
            final(self).free_blocks == old(self).free_blocks,
            final(self).recycle_spans == old(self).recycle_spans,
            final(self).tlabs == old(self).tlabs,
            final(self).memory == old(self).memory,
            final(self).allocation_point == old(self).allocation_point,
            final(self).current_block_end == old(self).current_block_end,
            final(self).reuse_due == old(self).reuse_due,
            final(self).tables.blocks@.len() == old(self).tables.blocks@.len(),
            forall|b: int|
                0 <= b < final(self).tables.blocks@.len() ==> #[trigger] final(
                    self).tables.blocks@[b] == (Block {
                    reusable: old(self).tables.blocks@[b].reusable || start <= b * 32768 < start
                        + len,
                    ..old(self).tables.blocks@[b]
                }),
    {
        let first: usize = start / BLOCK_SIZE;
        let end: usize = (start + len) / BLOCK_SIZE;
        let mut b: usize = first;
        while b < end
            invariant
                first <= b <= end <= self.tables.blocks@.len(),
                start == first * 32768,
                start + len == end * 32768,
                self.tables.objects == old(self).tables.objects,
                self.tables.alloc_sizes == old(self).tables.alloc_sizes,
                self.free_blocks == old(self).free_blocks,
                self.recycle_spans == old(self).recycle_spans,
                self.tlabs == old(self).tlabs,
                self.memory == old(self).memory,
                self.allocation_point == old(self).allocation_point,
                self.current_block_end == old(self).current_block_end,
                self.reuse_due == old(self).reuse_due,
                self.tables.blocks@.len() == old(self).tables.blocks@.len(),
                forall|c: int|
                    0 <= c < self.tables.blocks@.len() ==> #[trigger] self.tables.blocks@[c] == (
                    Block {
                        reusable: old(self).tables.blocks@[c].reusable || first <= c < b,
                        ..old(self).tables.blocks@[c]
                    }),
            decreases end - b,
        {
            self.tables.blocks[b].reusable = true;
            b = b + 1;
        }
    }
}

/// Blocks in the order of their addresses as the fewest runs.
pub fn merge_runs(list: &Vec<usize>) -> (runs: Vec<(usize, usize)>)
    requires
        forall|i: int| 0 <= i < list@.len() ==> (#[trigger] list@[i]) + 32768 <= usize::MAX,
    ensures
        blocks_of(runs@) == list@,
        runs_apart(runs@),
{
    let mut runs: Vec<(usize, usize)> = Vec::new();
    if list.len() == 0 {
        assert(blocks_of(runs@) =~= list@);
        return runs;
    }
    let mut start: usize = list[0];
    let mut len: usize = BLOCK_SIZE;
    let mut i: usize = 1;
    assert(run_blocks((start, len)) =~= list@.take(1));
    assert(blocks_of(runs@) + run_blocks((start, len)) =~= list@.take(1));
    while i < list.len()
        invariant
            1 <= i <= list.len(),
            forall|k: int| 0 <= k < list@.len() ==> (#[trigger] list@[k]) + 32768 <= usize::MAX,
            blocks_of(runs@) + run_blocks((start, len)) == list@.take(i as int),
            runs_apart(runs@),
            len % 32768 == 0,
            len > 0,
            start + len <= usize::MAX,
            runs@.len() > 0 ==> runs@.last().0 + runs@.last().1 != start,
        decreases list.len() - i,
    {
        let addr: usize = list[i];
        let ghost was = run_blocks((start, len));
        let ghost before = blocks_of(runs@);
        assert(list@.take(i + 1) =~= list@.take(i as int).push(addr));
        if addr == start + len {
            proof {
                let n = (len / 32768) as int;
                assert((len + 32768) / 32768 == n + 1);
                assert(n * 32768 == len);
                assert(run_blocks((start, (len + 32768) as usize)) =~= was.push(addr));
                assert(before + was.push(addr) =~= (before + was).push(addr));
            }
            len = len + BLOCK_SIZE;
        } else {
            let ghost old_runs = runs@;
            runs.push((start, len));
            proof {
                assert(runs@.drop_last() =~= old_runs);
                assert(blocks_of(runs@) == before + was);
                assert(run_blocks((addr, 32768)) =~= seq![addr]);
                assert(blocks_of(runs@) + run_blocks((addr, 32768)) =~= list@.take(i + 1));
                assert forall|k: int| 0 <= k < runs@.len() implies (#[trigger] runs@[k]).1 % 32768
                    == 0 && runs@[k].1 > 0 by {
                    if k < old_runs.len() {
                        assert(runs@[k] == old_runs[k]);
                    }
                }
                assert forall|k: int| 0 <= k < runs@.len() - 1 implies (#[trigger] runs@[k]).0
                    + runs@[k].1 != runs@[k + 1].0 by {
                    assert(runs@[k] == old_runs[k]);
                    if k + 1 < old_runs.len() {
                        assert(runs@[k + 1] == old_runs[k + 1]);
                    }
                }
            }
            start = addr;
            len = BLOCK_SIZE;
        }
        i = i + 1;
    }
    let ghost old_runs = runs@;
    runs.push((start, len));
    proof {
        assert(runs@.drop_last() =~= old_runs);
        assert(list@.take(i as int) =~= list@);
        assert forall|k: int| 0 <= k < runs@.len() implies (#[trigger] runs@[k]).1 % 32768 == 0
            && runs@[k].1 > 0 by {
            if k < old_runs.len() {
                assert(runs@[k] == old_runs[k]);
            }
        }
        assert forall|k: int| 0 <= k < runs@.len() - 1 implies (#[trigger] runs@[k]).0 + runs@[k].1
            != runs@[k + 1].0 by {
            assert(runs@[k] == old_runs[k]);
            if k + 1 < old_runs.len() {
                assert(runs@[k + 1] == old_runs[k + 1]);
            }
        }
    }
    runs
}

// The audit.

/// A word that holds an address in a freed block.
#[derive(Clone, Copy, Debug, PartialEq, Eq, Structural)]
pub struct Finding {
    /// Which of the words.
    pub at: usize,
    pub address: u64,
    /// Whether the address was in an interpreter's boxed form.
    pub boxed: bool,
}

/// The address in a word that has an interpreter's box around it.
pub open spec fn unboxed(w: u64) -> Option<u64> {
    if w & 0xFFF8_0000_0000_0000 == 0x7FF8_0000_0000_0000 {
        Some(w & 0x0000_FFFF_FFFF_FFFF)
    } else {
        None
    }
}

/// What one word holds of the block from `lo` up to `hi`.
pub open spec fn found_in(w: u64, at: int, lo: usize, hi: usize) -> Seq<Finding> {
    (if lo <= w < hi {
        seq![Finding { at: at as usize, address: w, boxed: false }]
    } else {
        Seq::empty()
    }) + match unboxed(w) {
        Some(d) => if lo <= d < hi {
            seq![Finding { at: at as usize, address: d, boxed: true }]
        } else {
            Seq::empty()
        },
        None => Seq::empty(),
    }
}

/// What the words hold of the block, in order.
pub open spec fn findings(words: Seq<u64>, lo: usize, hi: usize) -> Seq<Finding>
    decreases words.len(),
{
    if words.len() == 0 {
        Seq::empty()
    } else {
        findings(words.drop_last(), lo, hi) + found_in(words.last(), words.len() - 1, lo, hi)
    }
}

/// The use-after-free detector: the words of a root that still hold an address
/// in the freed block from `lo` up to `hi`. Diagnosis only.
pub fn audit(words: &Vec<u64>, lo: usize, hi: usize) -> (r: Vec<Finding>)
    ensures
        r@ == findings(words@, lo, hi),
{
    let mut r: Vec<Finding> = Vec::new();
    let mut i: usize = 0;
    assert(words@.take(0) =~= Seq::<u64>::empty());
    while i < words.len()
        invariant
            i <= words.len(),
            r@ == findings(words@.take(i as int), lo, hi),
        decreases words.len() - i,
    {
        assert(words@.take(i + 1).drop_last() =~= words@.take(i as int));
        let w: u64 = words[i];
        let ghost was = r@;
        if lo as u64 <= w && w < hi as u64 {
            r.push(Finding { at: i, address: w, boxed: false });
        }
        if w & 0xFFF8_0000_0000_0000 == 0x7FF8_0000_0000_0000 {
            let d: u64 = w & 0x0000_FFFF_FFFF_FFFF;
            if lo as u64 <= d && d < hi as u64 {
                r.push(Finding { at: i, address: d, boxed: true });
            }
        }
        assert(r@ =~= was + found_in(w, i as int, lo, hi));
        i = i + 1;
    }
    assert(words@.take(i as int) =~= words@);
    r
}

} // verus!
