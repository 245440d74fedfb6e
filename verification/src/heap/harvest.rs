//! Runs of unclaimed lines in a block.

use vstd::prelude::*;

use crate::heap::block::{bit, lemma_zero_bits, Block};
use crate::heap::layout::{LINES_PER_BLOCK, MARK_WORDS};

verus! {

impl Block {
    /// Where the run of unclaimed lines that ends before line `n` begins; `n`
    /// when the line before it is claimed.
    pub open spec fn open_run(&self, n: nat) -> int
        decreases n,
    {
        if n == 0 {
            0
        } else if self.marked(n - 1) {
            n as int
        } else {
            self.open_run((n - 1) as nat)
        }
    }

    /// The runs of unclaimed lines that a claimed line before line `n` ends,
    /// as `(first, count)`.
    pub open spec fn ended_runs(&self, n: nat) -> Seq<(usize, usize)>
        decreases n,
    {
        if n == 0 {
            Seq::empty()
        } else {
            let m = (n - 1) as nat;
            if self.marked(m as int) && self.open_run(m) < m {
                self.ended_runs(m).push(
                    (self.open_run(m) as usize, (m - self.open_run(m)) as usize),
                )
            } else {
                self.ended_runs(m)
            }
        }
    }

    /// The maximal runs of unclaimed lines, in order.
    pub open spec fn runs(&self) -> Seq<(usize, usize)> {
        if self.open_run(256) < 256 {
            self.ended_runs(256).push(
                (self.open_run(256) as usize, (256 - self.open_run(256)) as usize),
            )
        } else {
            self.ended_runs(256)
        }
    }

    /// A maximal run of unclaimed lines.
    pub open spec fn is_run(&self, r: (usize, usize)) -> bool {
        &&& 1 <= r.1
        &&& r.0 + r.1 <= 256
        &&& forall|l: int| r.0 <= l < r.0 + r.1 ==> !#[trigger] self.marked(l)
        &&& r.0 > 0 ==> self.marked(r.0 - 1)
        &&& r.0 + r.1 < 256 ==> self.marked(r.0 + r.1)
    }

    proof fn lemma_open_run(&self, n: nat)
        requires
            n <= 256,
        ensures
            0 <= self.open_run(n) <= n,
            forall|l: int| self.open_run(n) <= l < n ==> !#[trigger] self.marked(l),
            self.open_run(n) > 0 ==> self.marked(self.open_run(n) - 1),
        decreases n,
    {
        if n > 0 {
            self.lemma_open_run((n - 1) as nat);
        }
    }

    proof fn lemma_ended_runs(&self, n: nat)
        requires
            n <= 256,
        ensures
            forall|i: int|
                0 <= i < self.ended_runs(n).len() ==> self.is_run(#[trigger] self.ended_runs(n)[i])
                    && self.ended_runs(n)[i].0 + self.ended_runs(n)[i].1 < n
                    && self.ended_runs(n)[i].0 + self.ended_runs(n)[i].1 < self.open_run(n),
            forall|i: int, j: int|
                0 <= i < j < self.ended_runs(n).len() ==> (#[trigger] self.ended_runs(n)[i]).0
                    + self.ended_runs(n)[i].1 < (#[trigger] self.ended_runs(n)[j]).0,
        decreases n,
    {
        if n > 0 {
            let m = (n - 1) as nat;
            self.lemma_ended_runs(m);
            self.lemma_open_run(m);
            let prior = self.ended_runs(m);
            let all = self.ended_runs(n);
            assert forall|i: int| 0 <= i < all.len() implies self.is_run(#[trigger] all[i])
                && all[i].0 + all[i].1 < n && all[i].0 + all[i].1 < self.open_run(n) by {
                if i < prior.len() {
                    assert(all[i] == prior[i]);
                    assert(self.is_run(prior[i]));
                } else {
                    assert(all[i] == (self.open_run(m) as usize, (m - self.open_run(m)) as usize));
                }
            }
            assert forall|i: int, j: int| 0 <= i < j < all.len() implies (#[trigger] all[i]).0
                + all[i].1 < (#[trigger] all[j]).0 by {
                assert(all[i] == prior[i]);
                if j < prior.len() {
                    assert(all[j] == prior[j]);
                }
            }
        }
    }

    /// The runs are the maximal ones, in ascending order and apart.
    pub proof fn lemma_runs(&self)
        ensures
            forall|i: int|
                0 <= i < self.runs().len() ==> self.is_run(#[trigger] self.runs()[i]),
            forall|i: int, j: int|
                0 <= i < j < self.runs().len() ==> (#[trigger] self.runs()[i]).0 + self.runs()[i].1
                    < (#[trigger] self.runs()[j]).0,
    {
        self.lemma_ended_runs(256);
        self.lemma_open_run(256);
    }

    /// No free line is lost: every unclaimed line is in a run.
    pub proof fn law_every_free_line_is_in_a_run(&self, l: int)
        requires
            0 <= l < 256,
            !self.marked(l),
        ensures
            exists|i: int|
                0 <= i < self.runs().len() && (#[trigger] self.runs()[i]).0 <= l < self.runs()[i].0
                    + self.runs()[i].1,
    {
        self.lemma_covered_upto(l, 256);
        self.lemma_open_run(256);
        let all = self.runs();
        if l >= self.open_run(256) {
            assert(all[all.len() - 1].0 <= l);
        } else {
            let ended = self.ended_runs(256);
            let i = choose|i: int|
                0 <= i < ended.len() && (#[trigger] ended[i]).0 <= l < ended[i].0 + ended[i].1;
            assert(all[i] == ended[i]);
        }
    }

    proof fn lemma_covered_upto(&self, l: int, n: nat)
        requires
            0 <= l < n <= 256,
            !self.marked(l),
        ensures
            l >= self.open_run(n) || exists|i: int|
                0 <= i < self.ended_runs(n).len() && (#[trigger] self.ended_runs(n)[i]).0 <= l
                    < self.ended_runs(n)[i].0 + self.ended_runs(n)[i].1,
        decreases n,
    {
        let m = (n - 1) as nat;
        self.lemma_open_run(m);
        if l < m {
            self.lemma_covered_upto(l, m);
            if l >= self.open_run(m) {
                if self.marked(m as int) {
                    let ended = self.ended_runs(n);
                    assert(ended[ended.len() - 1].0 <= l);
                }
            } else {
                let prior = self.ended_runs(m);
                let i = choose|i: int|
                    0 <= i < prior.len() && (#[trigger] prior[i]).0 <= l < prior[i].0 + prior[i].1;
                assert(self.ended_runs(n)[i] == prior[i]);
            }
        }
    }

    pub proof fn lemma_count_zero(&self, n: nat)
        requires
            n <= 256,
        ensures
            self.count_marked(n) <= n,
            self.count_marked(n) == 0 <==> forall|l: int| 0 <= l < n ==> !#[trigger] self.marked(l),
        decreases n,
    {
        if n > 0 {
            self.lemma_count_zero((n - 1) as nat);
            if self.count_marked(n) == 0 {
                assert(!self.marked(n - 1));
            }
        }
    }

    /// A word of claims that is zero keeps the open run open.
    proof fn lemma_skip(&self, n: nat, k: nat)
        requires
            n + k <= 256,
            forall|l: int| n <= l < n + k ==> !#[trigger] self.marked(l),
        ensures
            k > 0 ==> self.open_run(n + k) == self.open_run(n),
            self.open_run(n + k) == self.open_run(n),
            self.ended_runs(n + k) == self.ended_runs(n),
            self.count_marked(n + k) == self.count_marked(n),
        decreases k,
    {
        if k > 0 {
            self.lemma_skip(n, (k - 1) as nat);
            assert(!self.marked(n + k - 1));
        }
    }

    /// The maximal runs of unclaimed lines, and how many lines are claimed.
    pub fn harvest(&self) -> (r: (Vec<(usize, usize)>, usize))
        ensures
            r.0@ == self.runs(),
            r.1 == self.count_marked(256),
            r.1 == 0 <==> self.clear(),
    {
        let mut spans: Vec<(usize, usize)> = Vec::new();
        let mut marked_lines: usize = 0;
        let mut run_start: usize = 0;
        let mut word_index: usize = 0;
        while word_index < MARK_WORDS
            invariant
                word_index <= 4,
                run_start == self.open_run((word_index * 64) as nat),
                run_start <= word_index * 64,
                spans@ == self.ended_runs((word_index * 64) as nat),
                marked_lines == self.count_marked((word_index * 64) as nat),
                marked_lines <= word_index * 64,
            decreases 4 - word_index,
        {
            let word: u64 = self.mark_bits[word_index];
            if word == 0 {
                proof {
                    assert forall|l: int|
                        word_index * 64 <= l < word_index * 64 + 64 implies !#[trigger] self.marked(
                        l,
                    ) by {
                        lemma_zero_bits((l % 64) as u64);
                        assert(l / 64 == word_index);
                    }
                    self.lemma_skip((word_index * 64) as nat, 64);
                    self.lemma_open_run((word_index * 64 + 64) as nat);
                }
                word_index = word_index + 1;
                continue;
            }
            let mut bit_index: usize = 0;
            while bit_index < 64
                invariant
                    word_index < 4,
                    bit_index <= 64,
                    word == self.mark_bits[word_index as int],
                    run_start == self.open_run((word_index * 64 + bit_index) as nat),
                    run_start <= word_index * 64 + bit_index,
                    spans@ == self.ended_runs((word_index * 64 + bit_index) as nat),
                    marked_lines == self.count_marked((word_index * 64 + bit_index) as nat),
                    marked_lines <= word_index * 64 + bit_index,
                decreases 64 - bit_index,
            {
                let line_index: usize = word_index * 64 + bit_index;
                let at: u64 = bit_index as u64;
                assert(self.marked(line_index as int) == bit(word, at));
                if word & (1u64 << at) != 0 {
                    marked_lines = marked_lines + 1;
                    if run_start < line_index {
                        spans.push((run_start, line_index - run_start));
                    }
                    run_start = line_index + 1;
                }
                bit_index = bit_index + 1;
            }
            word_index = word_index + 1;
        }
        if run_start < LINES_PER_BLOCK {
            spans.push((run_start, LINES_PER_BLOCK - run_start));
        }
        proof {
            self.lemma_count_zero(256);
            assert(self.clear() <==> forall|l: int| 0 <= l < 256 ==> !#[trigger] self.marked(l));
        }
        (spans, marked_lines)
    }
}

/// The bar of the occupancy chart that a block with `marked` claimed lines
/// belongs to.
pub fn occupancy_bar(marked: usize) -> (bar: usize)
    ensures
        bar == occupancy_bar_of(marked as int),
        bar < 6,
{
    if marked == 1 {
        0
    } else if 2 <= marked && marked <= 4 {
        1
    } else if 5 <= marked && marked <= 16 {
        2
    } else if 17 <= marked && marked <= 64 {
        3
    } else if 65 <= marked && marked <= 192 {
        4
    } else {
        5
    }
}

/// 1, 2 to 4, 5 to 16, 17 to 64, 65 to 192, and the rest.
pub open spec fn occupancy_bar_of(marked: int) -> int {
    if marked == 1 {
        0
    } else if 2 <= marked <= 4 {
        1
    } else if 5 <= marked <= 16 {
        2
    } else if 17 <= marked <= 64 {
        3
    } else if 65 <= marked <= 192 {
        4
    } else {
        5
    }
}

} // verus!
