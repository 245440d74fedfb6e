//! Where allocations may go: the free blocks, the recycled lines, the locked
//! path's bump region and the mutators' own.

use vstd::prelude::*;

use crate::heap::layout::{
    lemma_plain_code, line_up, ALLOC_QUANTUM, LINES_PER_BLOCK, LINE_SIZE, SPAN_OBJECT,
};
use crate::heap::memory::HeapMemory;
use crate::heap::tables::Tables;

verus! {

/// A mutator's private bump region, carved from a block, as heap offsets.
#[derive(Clone, Copy)]
pub struct Tlab {
    pub thread: u64,
    /// The block the region lies in; the sweep never reclaims it.
    pub block: usize,
    pub cur: usize,
    pub limit: usize,
}

/// The heap's memory, its side tables, and what of it is free.
pub struct Space {
    pub tables: Tables,
    pub memory: HeapMemory,
    /// Offsets of blocks that are not handed out.
    pub free_blocks: Vec<usize>,
    /// Runs of unmarked lines inside blocks the last sweep kept, as
    /// `(block, first_line, line_count)`.
    pub recycle_spans: Vec<(usize, usize, usize)>,
    pub allocation_point: usize,
    pub current_block_end: usize,
    /// Each mutator's bump region, one to a thread.
    pub tlabs: Vec<Tlab>,
    /// Blocks handed out whose pages the host must take up again before use.
    pub reuse_due: Vec<usize>,
}

/// Two byte ranges share nothing.
pub open spec fn apart(a_lo: int, a_hi: int, b_lo: int, b_hi: int) -> bool {
    a_lo >= a_hi || b_lo >= b_hi || a_hi <= b_lo || b_hi <= a_lo
}

/// The first byte of a run of recycled lines.
pub open spec fn span_lo(s: (usize, usize, usize)) -> int {
    s.0 + s.1 * 128
}

/// The end of a run of recycled lines.
pub open spec fn span_hi(s: (usize, usize, usize)) -> int {
    s.0 + s.1 * 128 + s.2 * 128
}

/// The last run of at least `want` lines, or a negative number.
pub open spec fn last_fit(spans: Seq<(usize, usize, usize)>, want: int) -> int
    decreases spans.len(),
{
    if spans.len() == 0 {
        -1
    } else if spans.last().2 >= want {
        spans.len() - 1
    } else {
        last_fit(spans.drop_last(), want)
    }
}

pub proof fn lemma_last_fit(spans: Seq<(usize, usize, usize)>, want: int)
    ensures
        -1 <= last_fit(spans, want) < spans.len(),
        last_fit(spans, want) >= 0 ==> spans[last_fit(spans, want)].2 >= want,
    decreases spans.len(),
{
    if spans.len() > 0 && spans.last().2 < want {
        lemma_last_fit(spans.drop_last(), want);
    }
}

/// The object byte of a fresh allocation of `aligned` bytes.
pub open spec fn alloc_byte(aligned: int) -> u8 {
    if aligned <= 128 {
        (aligned / 16) as u8
    } else {
        9
    }
}

/// The lines a fresh allocation takes in the line table.
pub open spec fn alloc_lines(aligned: int) -> int {
    if aligned >= 128 {
        (aligned + 127) / 128
    } else {
        0
    }
}

/// The bytes a fresh allocation of `aligned` bytes takes from its region.
pub open spec fn reserved(aligned: int) -> int {
    if aligned >= 128 {
        line_up(aligned)
    } else {
        aligned
    }
}

impl Tables {
    /// No allocation touches the bytes from `lo` to `hi`.
    pub open spec fn vacant(&self, lo: int, hi: int) -> bool {
        forall|q: int| #[trigger]
            self.is_start(q) ==> apart(q * 16, (q + self.extent(q)) * 16, lo, hi)
    }

    /// Every allocation lies inside the bytes from `lo` to `hi`, or outside.
    pub open spec fn enclosed(&self, lo: int, hi: int) -> bool {
        forall|q: int| #[trigger]
            self.is_start(q) ==> apart(q * 16, (q + self.extent(q)) * 16, lo, hi) || (lo <= q * 16
                && (q + self.extent(q)) * 16 <= hi)
    }

    /// No allocation of the block at byte `block` leaves it.
    pub open spec fn kept_in(&self, block: int) -> bool {
        forall|q: int| #[trigger]
            self.is_start(q) && q / 2048 == block / 32768 ==> (q + self.extent(q)) * 16 <= block
                + 32768
    }

    /// `self` is `before` without the starts from byte `lo` to `hi`.
    pub open spec fn cleared(&self, before: &Tables, lo: int, hi: int) -> bool {
        &&& self.blocks@ == before.blocks@
        &&& self.objects.len() == before.objects.len()
        &&& self.alloc_sizes.len() == before.alloc_sizes.len()
        &&& forall|q: int|
            #![trigger self.objects[q]]
            0 <= q < self.objects.len() ==> self.objects[q] == if lo <= q * 16 < hi {
                0
            } else {
                before.objects[q]
            }
        &&& forall|l: int|
            #![trigger self.alloc_sizes[l]]
            0 <= l < self.alloc_sizes.len() ==> self.alloc_sizes[l] == if lo <= l * 128 < hi {
                0
            } else {
                before.alloc_sizes[l]
            }
    }

    /// Forget every start from byte `offset` on, for `size` bytes of whole
    /// lines. Only for memory that is free: a reused run must forget its old
    /// spans before new objects are published in it.
    #[verifier::spinoff_prover]
    #[verifier::rlimit(50)]
    pub fn clear_allocation_metadata(&mut self, offset: usize, size: usize)
        requires
            old(self).inv(),
            offset % 128 == 0,
            size % 128 == 0,
            offset + size <= old(self).size(),
        ensures
            final(self).inv(),
            final(self).cleared(old(self), offset as int, offset + size),
            old(self).sound() ==> final(self).sound(),
            forall|q: int| #[trigger]
                final(self).is_start(q) <==> old(self).is_start(q) && !(offset <= q * 16 < offset
                    + size),
            forall|q: int| #[trigger]
                final(self).is_start(q) ==> final(self).extent(q) == old(self).extent(q),
            old(self).enclosed(offset as int, offset + size) ==> final(self).vacant(
                offset as int,
                offset + size,
            ),
    {
        let first: usize = offset / ALLOC_QUANTUM;
        let last: usize = (offset + size) / ALLOC_QUANTUM;
        let mut q: usize = first;
        while q < last
            invariant
                old(self).inv(),
                first == offset / 16,
                last == (offset + size) / 16,
                first <= q <= last,
                last <= old(self).objects.len(),
                self.blocks@ == old(self).blocks@,
                self.alloc_sizes@ == old(self).alloc_sizes@,
                self.objects.len() == old(self).objects.len(),
                forall|k: int|
                    #![trigger self.objects[k]]
                    0 <= k < self.objects.len() ==> self.objects[k] == if first <= k < q {
                        0
                    } else {
                        old(self).objects[k]
                    },
            decreases last - q,
        {
            self.objects[q] = 0;
            q = q + 1;
        }
        let top: usize = (offset + size) / LINE_SIZE;
        let mut line: usize = offset / LINE_SIZE;
        while line < top
            invariant
                old(self).inv(),
                offset % 128 == 0,
                size % 128 == 0,
                offset + size <= old(self).size(),
                top == (offset + size) / 128,
                offset / 128 <= line <= top,
                top <= old(self).alloc_sizes.len(),
                self.blocks@ == old(self).blocks@,
                self.objects.len() == old(self).objects.len(),
                self.alloc_sizes.len() == old(self).alloc_sizes.len(),
                forall|k: int|
                    #![trigger self.objects[k]]
                    0 <= k < self.objects.len() ==> self.objects[k] == if offset <= k * 16 < offset
                        + size {
                        0
                    } else {
                        old(self).objects[k]
                    },
                forall|l: int|
                    #![trigger self.alloc_sizes[l]]
                    0 <= l < self.alloc_sizes.len() ==> self.alloc_sizes[l] == if offset / 128 <= l
                        < line {
                        0
                    } else {
                        old(self).alloc_sizes[l]
                    },
            decreases top - line,
        {
            self.alloc_sizes[line] = 0;
            line = line + 1;
        }
        proof {
            self.lemma_cleared(old(self), offset as int, offset + size);
        }
    }

    pub proof fn lemma_cleared(&self, before: &Tables, lo: int, hi: int)
        requires
            before.inv(),
            lo % 128 == 0,
            hi % 128 == 0,
            self.cleared(before, lo, hi),
        ensures
            self.inv(),
            before.sound() ==> self.sound(),
            forall|q: int| #[trigger]
                self.is_start(q) <==> before.is_start(q) && !(lo <= q * 16 < hi),
            forall|q: int| #[trigger]
                self.is_start(q) ==> self.extent(q) == before.extent(q) && self.objects[q]
                    == before.objects[q],
            before.enclosed(lo, hi) ==> self.vacant(lo, hi),
    {
        lemma_plain_code(0);
        assert forall|q: int| #[trigger] self.is_start(q) <==> before.is_start(q) && !(lo <= q * 16
            < hi) by {
            if 0 <= q < self.objects.len() {
                assert(self.objects[q] == if lo <= q * 16 < hi {
                    0
                } else {
                    before.objects[q]
                });
            }
        }
        assert forall|q: int| #[trigger] self.is_start(q) implies self.extent(q) == before.extent(q)
            && self.objects[q] == before.objects[q] by {
            assert(before.entry_ok(q));
            if self.code(q) == 9 {
                assert(self.alloc_sizes[q / 8] == before.alloc_sizes[q / 8]);
            }
        }
        assert forall|q: int| 0 <= q < self.objects.len() implies #[trigger] self.entry_ok(q) by {
            assert(before.entry_ok(q));
            if self.is_start(q) {
                assert(self.extent(q) == before.extent(q));
            }
        }
        if before.sound() {
            assert forall|p: int, q: int|
                #![trigger self.is_start(p), self.is_start(q)]
                self.is_start(p) && self.is_start(q) && p < q implies p + self.extent(p) <= q by {
                assert(before.is_start(p) && before.is_start(q));
            }
            assert forall|q: int, l: int|
                #![trigger self.is_start(q), self.alloc_sizes[l]]
                self.is_start(q) && self.code(q) == 9 && q / 8 < l < q / 8 + self.alloc_sizes[q
                    / 8] implies self.alloc_sizes[l] == 0 by {
                assert(before.is_start(q));
                assert(before.entry_ok(q));
                assert(self.extent(q) == before.extent(q));
                assert(before.alloc_sizes[l] == 0);
            }
            assert forall|q: int, l: int| #[trigger] self.on_line(q, l) implies self.blocks[l
                / 256].used && (self.code(q) == 9 ==> self.blocks[l / 256].has_span) by {
                assert(before.on_line(q, l));
            }
            assert forall|q: int| #[trigger] self.is_start(q) implies q % 2048 == 0 || q / 2048 == (q
                + self.extent(q) - 1) / 2048 by {
                assert(before.is_start(q));
            }
        }
    }

    /// `self` is `before` with an allocation recorded at quantum `q` under
    /// `byte`, spanning `lines` lines when that is not zero.
    pub open spec fn added(&self, before: &Tables, q: int, byte: u8, lines: int) -> bool {
        &&& self.objects@ == before.objects@.update(q, byte)
        &&& self.alloc_sizes.len() == before.alloc_sizes.len()
        &&& forall|l: int|
            #![trigger self.alloc_sizes[l]]
            0 <= l < self.alloc_sizes.len() ==> self.alloc_sizes[l] == if q / 8 <= l < q / 8
                + lines {
                if l == q / 8 {
                    lines
                } else {
                    0
                }
            } else {
                before.alloc_sizes[l] as int
            }
        &&& self.blocks.len() == before.blocks.len()
        &&& forall|b: int|
            #![trigger self.blocks[b]]
            0 <= b < self.blocks.len() ==> {
                &&& self.blocks[b].mark_bits == before.blocks[b].mark_bits
                &&& self.blocks[b].any_marked == before.blocks[b].any_marked
                &&& self.blocks[b].has_drop == before.blocks[b].has_drop
                &&& self.blocks[b].used == before.blocks[b].used
                &&& self.blocks[b].reusable == before.blocks[b].reusable
                &&& self.blocks[b].has_span == (before.blocks[b].has_span || (lines > 0 && q / 8
                    / 256 <= b <= (q / 8 + lines - 1) / 256))
            }
    }

    /// Recording an allocation in vacant memory of handed-out blocks keeps
    /// the heap sound.
    pub proof fn lemma_added(&self, before: &Tables, q: int, byte: u8, lines: int)
        requires
            before.inv(),
            0 <= q < before.objects.len(),
            self.added(before, q, byte, lines),
            0 <= lines,
            q / 8 + lines <= before.alloc_sizes.len(),
            byte <= 9,
            byte > 0,
            lines == 0 ==> byte <= 8 && q % 8 + byte <= 8,
            lines > 0 ==> q % 8 == 0 && (byte == 9 || (byte == 8 && lines == 1)),
        ensures
            self.is_start(q),
            self.extent(q) == if byte == 9 {
                lines * 8
            } else {
                byte as int
            },
            self.objects[q] == byte,
            before.vacant(q * 16, q * 16 + if lines > 0 { lines * 128 } else { byte * 16 }) ==> {
                &&& self.inv()
                &&& forall|p: int| p != q ==> #[trigger] self.is_start(p) == before.is_start(p)
                &&& forall|p: int|
                    p != q && #[trigger] self.is_start(p) ==> self.extent(p) == before.extent(p)
                        && self.objects[p] == before.objects[p]
                &&& before.sound() && (forall|l: int|
                    q / 8 <= l <= (q + self.extent(q) - 1) / 8
                        ==> (#[trigger] before.blocks[l / 256]).used) && (q % 2048 == 0 || q / 2048
                    == (q + self.extent(q) - 1) / 2048) ==> self.sound()
            },
    {
        lemma_plain_code(byte);
        assert(self.objects[q] == byte);
        if lines > 0 {
            assert(self.alloc_sizes[q / 8] == lines);
        }
        let hi = q * 16 + if lines > 0 {
            lines * 128
        } else {
            byte * 16
        };
        if before.vacant(q * 16, hi) {
            assert forall|p: int| p != q implies #[trigger] self.is_start(p) == before.is_start(
                p,
            ) by {
                if 0 <= p < self.objects.len() {
                    assert(self.objects[p] == before.objects[p]);
                }
            }
            assert forall|p: int| p != q && #[trigger] self.is_start(p) implies self.extent(p)
                == before.extent(p) && self.objects[p] == before.objects[p] by {
                assert(before.is_start(p));
                assert(before.entry_ok(p));
                assert(self.objects[p] == before.objects[p]);
                if self.code(p) == 9 {
                    assert(apart(p * 16, (p + before.extent(p)) * 16, q * 16, hi));
                    assert(self.alloc_sizes[p / 8] == before.alloc_sizes[p / 8]);
                }
            }
            assert forall|p: int| 0 <= p < self.objects.len() implies #[trigger] self.entry_ok(
                p,
            ) by {
                assert(before.entry_ok(p));
                if p != q {
                    assert(self.objects[p] == before.objects[p]);
                    if self.code(p) == 9 {
                        assert(self.is_start(p));
                        assert(self.extent(p) == before.extent(p));
                    }
                }
            }
            if before.sound() && (forall|l: int|
                q / 8 <= l <= (q + self.extent(q) - 1) / 8
                    ==> (#[trigger] before.blocks[l / 256]).used) && (q % 2048 == 0 || q / 2048 == (
            q + self.extent(q) - 1) / 2048) {
                self.lemma_added_sound(before, q, byte, lines);
            }
        }
    }

    proof fn lemma_added_sound(&self, before: &Tables, q: int, byte: u8, lines: int)
        requires
            before.inv(),
            before.sound(),
            self.inv(),
            0 <= q < before.objects.len(),
            self.added(before, q, byte, lines),
            0 <= lines,
            q / 8 + lines <= before.alloc_sizes.len(),
            self.is_start(q),
            self.code(q) == byte,
            self.extent(q) == if byte == 9 { lines * 8 } else { byte as int },
            lines == 0 ==> byte <= 8 && q % 8 + byte <= 8,
            lines > 0 ==> q % 8 == 0 && (byte == 9 || (byte == 8 && lines == 1)),
            before.vacant(q * 16, q * 16 + if lines > 0 { lines * 128 } else { byte * 16 }),
            forall|p: int| p != q ==> #[trigger] self.is_start(p) == before.is_start(p),
            forall|p: int|
                p != q && #[trigger] self.is_start(p) ==> self.extent(p) == before.extent(p)
                    && self.objects[p] == before.objects[p],
            forall|l: int|
                q / 8 <= l <= (q + self.extent(q) - 1) / 8 ==> (
                #[trigger] before.blocks[l / 256]).used,
            q % 2048 == 0 || q / 2048 == (q + self.extent(q) - 1) / 2048,
        ensures
            self.sound(),
    {
        let hi = q * 16 + if lines > 0 {
            lines * 128
        } else {
            byte * 16
        };
        assert forall|a: int, b: int|
            #![trigger self.is_start(a), self.is_start(b)]
            self.is_start(a) && self.is_start(b) && a < b implies a + self.extent(a) <= b by {
            if a != q {
                assert(before.is_start(a));
                assert(before.entry_ok(a));
                assert(apart(a * 16, (a + before.extent(a)) * 16, q * 16, hi));
            }
            if b != q {
                assert(before.is_start(b));
                assert(before.entry_ok(b));
                assert(apart(b * 16, (b + before.extent(b)) * 16, q * 16, hi));
            }
        }
        assert forall|a: int, l: int|
            #![trigger self.is_start(a), self.alloc_sizes[l]]
            self.is_start(a) && self.code(a) == 9 && a / 8 < l < a / 8 + self.alloc_sizes[a
                / 8] implies self.alloc_sizes[l] == 0 by {
            if a != q {
                assert(before.is_start(a));
                assert(before.entry_ok(a));
                assert(self.extent(a) == before.extent(a));
                assert(apart(a * 16, (a + before.extent(a)) * 16, q * 16, hi));
                assert(before.alloc_sizes[l] == 0);
            }
        }
        assert forall|a: int, l: int| #[trigger] self.on_line(a, l) implies self.blocks[l
            / 256].used && (self.code(a) == 9 ==> self.blocks[l / 256].has_span) by {
            self.lemma_line_in_heap(a, l);
            if a != q {
                assert(before.on_line(a, l));
                assert(self.blocks[l / 256].used == before.blocks[l / 256].used);
            } else {
                assert(before.blocks[l / 256].used);
                assert(self.blocks[l / 256].used == before.blocks[l / 256].used);
            }
        }
        assert forall|a: int| #[trigger] self.is_start(a) implies a % 2048 == 0 || a / 2048 == (a
            + self.extent(a) - 1) / 2048 by {
            if a != q {
                assert(before.is_start(a));
            }
        }
    }

    /// Record an allocation of `aligned` bytes at byte `point`: its byte, and,
    /// from a line up, its span in the line table.
    pub fn record_allocation(&mut self, point: usize, aligned: usize)
        requires
            old(self).inv(),
            point % 16 == 0,
            aligned % 16 == 0,
            0 < aligned,
            aligned < 128 ==> point % 128 + aligned <= 128,
            aligned >= 128 ==> point % 128 == 0,
            point + reserved(aligned as int) <= old(self).size(),
        ensures
            final(self).added(
                old(self),
                point as int / 16,
                alloc_byte(aligned as int),
                alloc_lines(aligned as int),
            ),
    {
        let q: usize = point / ALLOC_QUANTUM;
        if aligned >= LINE_SIZE {
            let start_line: usize = point / LINE_SIZE;
            let num_lines: usize = aligned / LINE_SIZE + if aligned % LINE_SIZE == 0 {
                0
            } else {
                1
            };
            self.note_span(start_line, num_lines);
        }
        if aligned <= LINE_SIZE {
            self.objects[q] = (aligned / ALLOC_QUANTUM) as u8;
        } else {
            self.objects[q] = SPAN_OBJECT;
        }
    }

    /// Set the span of `lines` lines from `line` in the line table, and flag
    /// its blocks.
    fn note_span(&mut self, line: usize, lines: usize)
        requires
            old(self).inv(),
            0 < lines,
            line + lines <= old(self).alloc_sizes.len(),
        ensures
            final(self).objects@ == old(self).objects@,
            final(self).alloc_sizes.len() == old(self).alloc_sizes.len(),
            forall|l: int|
                #![trigger final(self).alloc_sizes[l]]
                0 <= l < final(self).alloc_sizes.len() ==> final(self).alloc_sizes[l] == if line
                    <= l < line + lines {
                    if l == line {
                        lines as int
                    } else {
                        0
                    }
                } else {
                    old(self).alloc_sizes[l] as int
                },
            final(self).blocks.len() == old(self).blocks.len(),
            forall|b: int|
                #![trigger final(self).blocks[b]]
                0 <= b < final(self).blocks.len() ==> {
                    &&& final(self).blocks[b].mark_bits == old(self).blocks[b].mark_bits
                    &&& final(self).blocks[b].any_marked == old(self).blocks[b].any_marked
                    &&& final(self).blocks[b].has_drop == old(self).blocks[b].has_drop
                    &&& final(self).blocks[b].used == old(self).blocks[b].used
                    &&& final(self).blocks[b].reusable == old(self).blocks[b].reusable
                    &&& final(self).blocks[b].has_span == (old(self).blocks[b].has_span || (line
                        as int / 256 <= b <= (line + lines - 1) / 256))
                },
    {
        let first: usize = line / LINES_PER_BLOCK;
        let last: usize = (line + lines - 1) / LINES_PER_BLOCK;
        let mut b: usize = first;
        while b <= last
            invariant
                old(self).inv(),
                0 < lines,
                line + lines <= old(self).alloc_sizes.len(),
                first == line as int / 256,
                last == (line + lines - 1) / 256,
                first <= b <= last + 1,
                last < old(self).blocks.len(),
                self.objects@ == old(self).objects@,
                self.alloc_sizes@ == old(self).alloc_sizes@,
                self.blocks.len() == old(self).blocks.len(),
                forall|c: int|
                    #![trigger self.blocks[c]]
                    0 <= c < self.blocks.len() ==> {
                        &&& self.blocks[c].mark_bits == old(self).blocks[c].mark_bits
                        &&& self.blocks[c].any_marked == old(self).blocks[c].any_marked
                        &&& self.blocks[c].has_drop == old(self).blocks[c].has_drop
                        &&& self.blocks[c].used == old(self).blocks[c].used
                        &&& self.blocks[c].reusable == old(self).blocks[c].reusable
                        &&& self.blocks[c].has_span == (old(self).blocks[c].has_span || (first <= c
                            < b))
                    },
            decreases last + 1 - b,
        {
            self.blocks[b].has_span = true;
            b = b + 1;
        }
        self.alloc_sizes[line] = lines as u32;
        let mut i: usize = 1;
        while i < lines
            invariant
                1 <= i <= lines,
                lines <= u32::MAX,
                line + lines <= old(self).alloc_sizes.len(),
                self.objects@ == old(self).objects@,
                self.alloc_sizes.len() == old(self).alloc_sizes.len(),
                self.blocks.len() == old(self).blocks.len(),
                forall|c: int|
                    #![trigger self.blocks[c]]
                    0 <= c < self.blocks.len() ==> {
                        &&& self.blocks[c].mark_bits == old(self).blocks[c].mark_bits
                        &&& self.blocks[c].any_marked == old(self).blocks[c].any_marked
                        &&& self.blocks[c].has_drop == old(self).blocks[c].has_drop
                        &&& self.blocks[c].used == old(self).blocks[c].used
                        &&& self.blocks[c].reusable == old(self).blocks[c].reusable
                        &&& self.blocks[c].has_span == (old(self).blocks[c].has_span || (line as int
                            / 256 <= c <= (line + lines - 1) / 256))
                    },
                forall|l: int|
                    #![trigger self.alloc_sizes[l]]
                    0 <= l < self.alloc_sizes.len() ==> self.alloc_sizes[l] == if line <= l < line
                        + i {
                        if l == line {
                            lines as int
                        } else {
                            0
                        }
                    } else {
                        old(self).alloc_sizes[l] as int
                    },
            decreases lines - i,
        {
            self.alloc_sizes[line + i] = 0;
            i = i + 1;
        }
    }
}

} // verus!
