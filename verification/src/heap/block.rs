//! Per-block state: line-claim bits and the flags the sweep consults.

use vstd::prelude::*;

use crate::heap::layout::LINES_PER_BLOCK;

verus! {

/// What the heap keeps beside each block's bytes.
pub struct Block {
    /// One claim bit per line, packed 64 to a word.
    pub mark_bits: [u64; 4],
    /// Set while a multi-line span may be recorded in this block.
    pub has_span: bool,
    /// Set by the marker the first time a line of this block is claimed, so
    /// the sweep can skip a block nothing reached.
    pub any_marked: bool,
    /// Set while an object with a drop hook may live in this block.
    pub has_drop: bool,
    /// Handed out, and not yet found empty by a sweep.
    pub used: bool,
    /// Its pages were handed back and must be taken up again before reuse.
    pub reusable: bool,
}

/// Bit `i` of `w`.
pub open spec fn bit(w: u64, i: u64) -> bool {
    w & (1u64 << i) != 0
}

proof fn lemma_set_bit(w: u64, i: u64, j: u64)
    requires
        i < 64,
        j < 64,
    ensures
        bit(w | (1u64 << i), j) == (i == j || bit(w, j)),
{
    assert(i < 64 && j < 64 ==> ((w | (1u64 << i)) & (1u64 << j) != 0) == (i == j || w & (1u64 << j)
        != 0)) by (bit_vector);
}

/// No bit of zero is set.
pub proof fn lemma_zero_bits(j: u64)
    requires
        j < 64,
    ensures
        !bit(0, j),
{
    assert(0u64 & (1u64 << j) == 0) by (bit_vector);
}

impl Block {
    /// Whether line `line` of the block is claimed.
    pub open spec fn marked(&self, line: int) -> bool {
        bit(self.mark_bits[line / 64], (line % 64) as u64)
    }

    /// No line is claimed.
    pub open spec fn clear(&self) -> bool {
        forall|l: int| 0 <= l < 256 ==> !#[trigger] self.marked(l)
    }

    /// No claim and no flag.
    pub open spec fn blank(&self) -> bool {
        &&& self.clear()
        &&& !self.has_span
        &&& !self.any_marked
        &&& !self.has_drop
        &&& !self.used
        &&& !self.reusable
    }

    /// Everything but the claims agrees with `other`.
    pub open spec fn same_flags(&self, other: &Block) -> bool {
        &&& self.has_span == other.has_span
        &&& self.has_drop == other.has_drop
        &&& self.used == other.used
        &&& self.reusable == other.reusable
    }

    /// The claims are those of the bits.
    pub proof fn lemma_same_bits(&self, other: &Block)
        requires
            self.mark_bits == other.mark_bits,
        ensures
            forall|l: int| #[trigger] self.marked(l) == other.marked(l),
            self.clear() == other.clear(),
    {
        assert forall|l: int| #[trigger] self.marked(l) == other.marked(l) by {}
        if self.clear() {
            assert forall|l: int| 0 <= l < 256 implies !#[trigger] other.marked(l) by {
                assert(!self.marked(l));
            }
        }
    }

    /// A block that was never handed out.
    pub fn new() -> (b: Block)
        ensures
            b.blank(),
    {
        let b = Block {
            mark_bits: [0, 0, 0, 0],
            has_span: false,
            any_marked: false,
            has_drop: false,
            used: false,
            reusable: false,
        };
        proof {
            assert forall|l: int| 0 <= l < 256 implies !#[trigger] b.marked(l) by {
                lemma_zero_bits((l % 64) as u64);
            }
        }
        b
    }

    /// Whether `line_idx` is claimed.
    pub fn is_marked(&self, line_idx: usize) -> (r: bool)
        requires
            line_idx < LINES_PER_BLOCK,
        ensures
            r == self.marked(line_idx as int),
    {
        let at: u64 = (line_idx % 64) as u64;
        self.mark_bits[line_idx / 64] & (1u64 << at) != 0
    }

    /// Set a line's bit without reporting whether it was set before.
    pub fn set_mark(&mut self, line_idx: usize)
        requires
            line_idx < LINES_PER_BLOCK,
        ensures
            forall|l: int|
                0 <= l < 256 ==> #[trigger] final(self).marked(l) == (l == line_idx || old(
                    self,
                ).marked(l)),
            final(self).same_flags(old(self)),
            final(self).any_marked == old(self).any_marked,
    {
        let at: u64 = (line_idx % 64) as u64;
        let word: usize = line_idx / 64;
        let bits: u64 = self.mark_bits[word] | (1u64 << at);
        let ghost before = *self;
        self.mark_bits[word] = bits;
        proof {
            assert forall|l: int| 0 <= l < 256 implies #[trigger] self.marked(l) == (l == line_idx
                || before.marked(l)) by {
                lemma_set_bit(before.mark_bits[word as int], at, (l % 64) as u64);
            }
        }
    }

    /// How many lines are claimed.
    pub fn marked_line_count(&self) -> (n: usize)
        ensures
            n == self.count_marked(256),
            n <= 256,
    {
        let mut n: usize = 0;
        let mut line: usize = 0;
        while line < LINES_PER_BLOCK
            invariant
                line <= 256,
                n == self.count_marked(line as nat),
                n <= line,
            decreases 256 - line,
        {
            if self.is_marked(line) {
                n = n + 1;
            }
            line = line + 1;
        }
        n
    }

    /// How many of the first `n` lines are claimed.
    pub open spec fn count_marked(&self, n: nat) -> nat
        decreases n,
    {
        if n == 0 {
            0
        } else {
            self.count_marked((n - 1) as nat) + if self.marked(n - 1) {
                1nat
            } else {
                0
            }
        }
    }

    /// Claim a line for the marker; true when this call set it.
    pub fn claim_line(&mut self, line_idx: usize) -> (won: bool)
        requires
            line_idx < LINES_PER_BLOCK,
        ensures
            won == !old(self).marked(line_idx as int),
            forall|l: int|
                0 <= l < 256 ==> #[trigger] final(self).marked(l) == (l == line_idx || old(
                    self,
                ).marked(l)),
            final(self).same_flags(old(self)),
            final(self).any_marked == (won || old(self).any_marked),
    {
        if self.is_marked(line_idx) {
            return false;
        }
        self.set_mark(line_idx);
        let ghost mid = *self;
        self.any_marked = true;
        proof {
            assert forall|l: int| 0 <= l < 256 implies #[trigger] self.marked(l) == (l == line_idx
                || old(self).marked(l)) by {
                assert(self.marked(l) == mid.marked(l));
            }
        }
        true
    }

    /// Clear every line's bit.
    pub fn clear_marks(&mut self)
        ensures
            final(self).clear(),
            final(self).same_flags(old(self)),
            final(self).any_marked == old(self).any_marked,
    {
        self.mark_bits = [0, 0, 0, 0];
        proof {
            assert forall|l: int| 0 <= l < 256 implies !#[trigger] self.marked(l) by {
                lemma_zero_bits((l % 64) as u64);
            }
        }
    }
}

} // verus!
