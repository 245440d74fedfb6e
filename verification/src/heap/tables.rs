//! The side tables: where every allocation starts, how long it is, and what
//! the open cycle has claimed.

use vstd::prelude::*;

use crate::heap::block::Block;
use crate::heap::layout::{
    claim_bit, kind_bits, lemma_claim_bit, size_code, ALLOC_QUANTUM, LINES_PER_BLOCK, LINE_SIZE,
    OBJECT_MARK, OBJECT_SIZE_MASK, QUANTA_PER_LINE, SPAN_OBJECT,
};

verus! {

/// The side tables of a heap, one entry per block, per line and per quantum.
pub struct Tables {
    pub blocks: Vec<Block>,
    /// For the first line of an allocation of a line or more, how many lines
    /// it takes; zero elsewhere.
    pub alloc_sizes: Vec<u32>,
    /// For each quantum, zero or the byte of the allocation starting there:
    /// its size code, its kind and its claim.
    pub objects: Vec<u8>,
}

impl Tables {
    /// The size code at quantum `q`.
    pub open spec fn code(&self, q: int) -> int {
        size_code(self.objects[q]) as int
    }

    /// Whether an allocation starts at quantum `q`.
    pub open spec fn is_start(&self, q: int) -> bool {
        0 <= q < self.objects.len() && self.code(q) != 0
    }

    /// How many quanta the allocation starting at `q` takes.
    pub open spec fn extent(&self, q: int) -> int {
        if self.code(q) == 9 {
            self.alloc_sizes[q / 8] as int * 8
        } else {
            self.code(q)
        }
    }

    /// Whether the allocation starting at quantum `q` contains byte `offset`.
    pub open spec fn holds(&self, q: int, offset: int) -> bool {
        self.is_start(q) && q * 16 <= offset < (q + self.extent(q)) * 16
    }

    /// Whether the allocation starting at `q` touches line `line`.
    pub open spec fn on_line(&self, q: int, line: int) -> bool {
        self.is_start(q) && q / 8 <= line <= (q + self.extent(q) - 1) / 8
    }

    /// Whether the open cycle has claimed the allocation starting at `q`.
    pub open spec fn claimed(&self, q: int) -> bool {
        self.is_start(q) && claim_bit(self.objects[q])
    }

    /// Whether heap line `line` is claimed.
    pub open spec fn marked_line(&self, line: int) -> bool {
        self.blocks[line / 256].marked(line % 256)
    }

    /// What one object byte promises: a size that fits its line, or a span
    /// whose length is in the line table and inside the heap.
    pub open spec fn entry_ok(&self, q: int) -> bool {
        let c = self.code(q);
        &&& c <= 9
        &&& 1 <= c <= 8 ==> q % 8 + c <= 8
        &&& c == 9 ==> {
            &&& q % 8 == 0
            &&& 1 <= self.alloc_sizes[q / 8]
            &&& q / 8 + self.alloc_sizes[q / 8] <= self.alloc_sizes.len()
        }
    }

    /// The tables describe one heap of whole blocks.
    pub open spec fn inv(&self) -> bool {
        &&& self.objects.len() == self.blocks.len() * 2048
        &&& self.alloc_sizes.len() == self.blocks.len() * 256
        &&& self.blocks.len() * 32768 <= usize::MAX
        &&& self.alloc_sizes.len() <= u32::MAX
        &&& forall|q: int| 0 <= q < self.objects.len() ==> #[trigger] self.entry_ok(q)
    }

    /// The heap's length in bytes.
    pub open spec fn size(&self) -> int {
        self.blocks.len() * 32768
    }

    /// Allocations do not overlap; a span's later lines start nothing; its
    /// blocks know that they hold a span; every allocation lies in blocks that
    /// are handed out; and one that leaves its block starts with it.
    pub open spec fn sound(&self) -> bool {
        &&& forall|p: int, q: int|
            #![trigger self.is_start(p), self.is_start(q)]
            self.is_start(p) && self.is_start(q) && p < q ==> p + self.extent(p) <= q
        &&& forall|q: int, l: int|
            #![trigger self.is_start(q), self.alloc_sizes[l]]
            self.is_start(q) && self.code(q) == 9 && q / 8 < l < q / 8 + self.alloc_sizes[q / 8]
                ==> self.alloc_sizes[l] == 0
        &&& forall|q: int, l: int|
            #![trigger self.on_line(q, l)]
            self.on_line(q, l) ==> self.blocks[l / 256].used && (self.code(q) == 9
                ==> self.blocks[l / 256].has_span)
        &&& forall|q: int| #[trigger]
            self.is_start(q) ==> q % 2048 == 0 || q / 2048 == (q + self.extent(q) - 1) / 2048
    }

    /// A span's lines are claimed together or not at all.
    pub open spec fn marks_whole(&self) -> bool {
        forall|q: int, l: int|
            #![trigger self.on_line(q, l)]
            self.on_line(q, l) ==> self.marked_line(l) == self.marked_line(q / 8)
    }

    /// A claimed allocation's lines are claimed, and its blocks say so.
    pub open spec fn claims_held(&self) -> bool {
        forall|q: int, l: int|
            #![trigger self.on_line(q, l)]
            self.claimed(q) && self.on_line(q, l) ==> self.marked_line(l)
    }

    /// A block that was not touched has no claimed line.
    pub open spec fn marks_seen(&self) -> bool {
        forall|b: int|
            0 <= b < self.blocks.len() && !(#[trigger] self.blocks[b]).any_marked
                ==> self.blocks[b].clear()
    }

    /// The same allocations, of the same kinds, in the same blocks: only
    /// claims may differ.
    pub open spec fn same_starts(&self, other: &Tables) -> bool {
        &&& self.alloc_sizes@ == other.alloc_sizes@
        &&& self.objects.len() == other.objects.len()
        &&& self.blocks.len() == other.blocks.len()
        &&& forall|q: int|
            #![trigger self.objects[q]]
            #![trigger other.objects[q]]
            0 <= q < self.objects.len() ==> size_code(self.objects[q]) == size_code(
                other.objects[q],
            ) && kind_bits(self.objects[q]) == kind_bits(other.objects[q])
        &&& forall|b: int|
            #![trigger self.blocks[b]]
            #![trigger other.blocks[b]]
            0 <= b < self.blocks.len() ==> self.blocks[b].same_flags(&other.blocks[b])
    }

    /// The same starts give the same lookups.
    pub proof fn lemma_same_starts(&self, other: &Tables)
        requires
            self.same_starts(other),
        ensures
            other.inv() ==> self.inv(),
            other.inv() && other.sound() ==> self.sound(),
            forall|q: int| #[trigger] self.is_start(q) == other.is_start(q),
            forall|q: int| other.inv() && other.is_start(q) ==> #[trigger] self.extent(q) == other.extent(q),
            forall|q: int, o: int|
                other.inv() ==> #[trigger] self.holds(q, o) == other.holds(q, o),
            forall|q: int, l: int|
                other.inv() ==> #[trigger] self.on_line(q, l) == other.on_line(q, l),
    {
        assert forall|q: int| 0 <= q < self.objects.len() implies self.code(q) == other.code(q) by {
            assert(self.objects[q] == self.objects[q]);
        }
        assert forall|q: int| #[trigger] self.is_start(q) == other.is_start(q) by {}
        if other.inv() {
            assert forall|q: int| 0 <= q < self.objects.len() implies #[trigger] self.entry_ok(
                q,
            ) by {
                assert(other.entry_ok(q));
            }
            assert forall|q: int| other.is_start(q) implies #[trigger] self.extent(q)
                == other.extent(q) by {
                assert(self.is_start(q));
            }
            assert forall|q: int, o: int| #[trigger] self.holds(q, o) == other.holds(q, o) by {
                if self.is_start(q) {
                    assert(self.extent(q) == other.extent(q));
                }
                assert(self.is_start(q) == other.is_start(q));
            }
            assert forall|q: int, l: int| #[trigger] self.on_line(q, l) == other.on_line(q, l) by {
                if self.is_start(q) {
                    assert(self.extent(q) == other.extent(q));
                }
                assert(self.is_start(q) == other.is_start(q));
            }
            if other.sound() {
                assert forall|p: int, q: int|
                    #![trigger self.is_start(p), self.is_start(q)]
                    self.is_start(p) && self.is_start(q) && p < q implies p + self.extent(p) <= q by {
                    assert(other.is_start(p) && other.is_start(q));
                    assert(self.extent(p) == other.extent(p));
                }
                assert forall|q: int, l: int|
                    #![trigger self.is_start(q), self.alloc_sizes[l]]
                    self.is_start(q) && self.code(q) == 9 && q / 8 < l < q / 8 + self.alloc_sizes[q
                        / 8] implies self.alloc_sizes[l] == 0 by {
                    assert(other.is_start(q));
                    assert(self.alloc_sizes@[l] == other.alloc_sizes@[l]);
                    assert(self.alloc_sizes@[q / 8] == other.alloc_sizes@[q / 8]);
                }
                assert forall|q: int, l: int| #[trigger] self.on_line(q, l) implies self.blocks[l
                    / 256].used && (self.code(q) == 9 ==> self.blocks[l / 256].has_span) by {
                    assert(other.on_line(q, l));
                    assert(other.entry_ok(q));
                    self.lemma_line_in_heap(q, l);
                    assert(self.blocks[l / 256].same_flags(&other.blocks[l / 256]));
                }
                assert forall|q: int| #[trigger] self.is_start(q) implies q % 2048 == 0 || q / 2048
                    == (q + self.extent(q) - 1) / 2048 by {
                    assert(other.is_start(q));
                }
            }
        }
    }

    /// A line that an allocation touches is a line of the heap.
    pub proof fn lemma_line_in_heap(&self, q: int, l: int)
        requires
            self.inv(),
            self.on_line(q, l),
        ensures
            0 <= l < self.alloc_sizes.len(),
            0 <= l / 256 < self.blocks.len(),
            1 <= self.extent(q),
            q + self.extent(q) <= self.objects.len(),
    {
        assert(self.entry_ok(q));
    }

    /// At most one allocation of a sound heap contains a given byte.
    pub proof fn lemma_unique(&self, p: int, q: int, offset: int)
        requires
            self.inv(),
            self.sound(),
            self.holds(p, offset),
            self.holds(q, offset),
        ensures
            p == q,
    {
        if p < q {
            assert(self.is_start(p) && self.is_start(q));
        } else if q < p {
            assert(self.is_start(q) && self.is_start(p));
        }
    }

    /// The first start at or below quantum `quantum` in its line, if any.
    fn start_in_line(&self, quantum: usize) -> (r: Option<usize>)
        requires
            self.inv(),
            quantum < self.objects.len(),
        ensures
            match r {
                Some(p) => {
                    &&& quantum / 8 * 8 <= p <= quantum
                    &&& self.is_start(p as int)
                    &&& forall|x: int| p < x <= quantum ==> !self.is_start(x)
                },
                None => forall|x: int| quantum / 8 * 8 <= x <= quantum ==> !self.is_start(x),
            },
    {
        let floor: usize = quantum / QUANTA_PER_LINE * QUANTA_PER_LINE;
        let mut at: usize = quantum;
        loop
            invariant
                self.inv(),
                quantum < self.objects.len(),
                floor == quantum / 8 * 8,
                floor <= at <= quantum,
                forall|x: int| at < x <= quantum ==> !self.is_start(x),
            decreases at,
        {
            if self.objects[at] & OBJECT_SIZE_MASK != 0 {
                return Some(at);
            }
            assert(!self.is_start(at as int));
            if at == floor {
                return None;
            }
            at = at - 1;
        }
    }

    /// Resolve a byte offset to the allocation that contains it, interior
    /// offsets included, as `(start, size)` in bytes. Small starts are at most
    /// one line away; only spans cross a line.
    pub fn allocation_at(&self, offset: usize) -> (r: Option<(usize, usize)>)
        requires
            self.inv(),
        ensures
            match r {
                Some((begin, size)) => {
                    &&& begin % 16 == 0
                    &&& self.holds(begin as int / 16, offset as int)
                    &&& size == self.extent(begin as int / 16) * 16
                },
                None => self.sound() ==> forall|q: int| !#[trigger] self.holds(q, offset as int),
            },
    {
        let quantum: usize = offset / ALLOC_QUANTUM;
        if quantum >= self.objects.len() {
            proof {
                assert forall|q: int| !#[trigger] self.holds(q, offset as int) by {
                    if self.is_start(q) {
                        assert(self.entry_ok(q));
                    }
                }
            }
            return None;
        }
        match self.start_in_line(quantum) {
            Some(start) => {
                proof {
                    assert(self.entry_ok(start as int));
                }
                let code: u8 = self.objects[start] & OBJECT_SIZE_MASK;
                let begin: usize = start * ALLOC_QUANTUM;
                let size: usize = if code == SPAN_OBJECT {
                    self.alloc_sizes[begin / LINE_SIZE] as usize * LINE_SIZE
                } else {
                    code as usize * ALLOC_QUANTUM
                };
                if offset - begin < size {
                    return Some((begin, size));
                }
                proof {
                    if self.sound() {
                        assert forall|q: int| !#[trigger] self.holds(q, offset as int) by {
                            if self.holds(q, offset as int) {
                                assert(self.is_start(q) && self.is_start(start as int));
                            }
                        }
                    }
                }
                return None;
            },
            None => {},
        }
        self.span_over(offset)
    }

    /// The span containing `offset`, where no start is at or below it in its
    /// own line.
    fn span_over(&self, offset: usize) -> (r: Option<(usize, usize)>)
        requires
            self.inv(),
            offset / 16 < self.objects.len(),
            forall|x: int| offset / 16 / 8 * 8 <= x <= offset / 16 ==> !self.is_start(x),
        ensures
            match r {
                Some((begin, size)) => {
                    &&& begin % 16 == 0
                    &&& self.holds(begin as int / 16, offset as int)
                    &&& size == self.extent(begin as int / 16) * 16
                },
                None => self.sound() ==> forall|q: int| !#[trigger] self.holds(q, offset as int),
            },
    {
        let line: usize = offset / LINE_SIZE;
        let mut start: usize = line;
        proof {
            assert forall|q: int| #[trigger] self.holds(q, offset as int) implies self.code(q) == 9
                && q / 8 < line && line < q / 8 + self.alloc_sizes[q / 8] by {
                assert(self.entry_ok(q));
                assert(!(offset / 16 / 8 * 8 <= q <= offset / 16));
            }
        }
        loop
            invariant
                self.inv(),
                line == offset / 128,
                start <= line < self.alloc_sizes.len(),
                offset / 16 < self.objects.len(),
                forall|l: int| start < l <= line ==> self.alloc_sizes[l] == 0,
                forall|q: int| #[trigger]
                    self.holds(q, offset as int) ==> self.code(q) == 9 && q / 8 < line && line < q
                        / 8 + self.alloc_sizes[q / 8],
            decreases start,
        {
            let b: usize = start / LINES_PER_BLOCK;
            proof {
                if self.sound() && !self.blocks[b as int].has_span {
                    assert forall|q: int| !#[trigger] self.holds(q, offset as int) by {
                        if self.holds(q, offset as int) {
                            if q / 8 > start {
                                assert(self.entry_ok(q));
                                assert(self.alloc_sizes[q / 8] == 0);
                            }
                            assert(self.on_line(q, start as int));
                        }
                    }
                }
            }
            if !self.blocks[b].has_span {
                return None;
            }
            if self.alloc_sizes[start] != 0 {
                let begin: usize = start * LINE_SIZE;
                let quantum: usize = begin / ALLOC_QUANTUM;
                let code: u8 = self.objects[quantum] & OBJECT_SIZE_MASK;
                proof {
                    assert(self.entry_ok(quantum as int));
                    if self.sound() {
                        assert forall|q: int| #[trigger]
                            self.holds(q, offset as int) implies q == quantum by {
                            assert(self.entry_ok(q));
                            if q / 8 < start {
                                assert(self.is_start(q) && self.alloc_sizes[start as int] == 0);
                            } else if q / 8 > start {
                                assert(self.alloc_sizes[q / 8] == 0);
                            }
                        }
                    }
                }
                if code == SPAN_OBJECT {
                    let size: usize = self.alloc_sizes[start] as usize * LINE_SIZE;
                    if offset - begin < size {
                        return Some((begin, size));
                    }
                }
                return None;
            }
            if start == 0 {
                proof {
                    if self.sound() {
                        assert forall|q: int| !#[trigger] self.holds(q, offset as int) by {
                            if self.holds(q, offset as int) {
                                assert(self.entry_ok(q));
                                assert(self.alloc_sizes[q / 8] == 0);
                            }
                        }
                    }
                }
                return None;
            }
            start = start - 1;
        }
    }

    /// Claim every line from `first` to `last`.
    pub fn claim_lines(&mut self, first: usize, last: usize)
        requires
            old(self).inv(),
            first <= last < old(self).alloc_sizes.len(),
        ensures
            final(self).same_starts(old(self)),
            final(self).inv(),
            final(self).objects@ == old(self).objects@,
            forall|l: int|
                0 <= l < old(self).alloc_sizes.len() ==> #[trigger] final(self).marked_line(l) == (
                old(self).marked_line(l) || first <= l <= last),
            forall|b: int|
                0 <= b < old(self).blocks.len() ==> #[trigger] final(self).blocks[b].any_marked == (
                old(self).blocks[b].any_marked || exists|l: int|
                    first <= l <= last && l / 256 == b && !#[trigger] old(self).marked_line(l)),
            old(self).marks_seen() ==> final(self).marks_seen(),
    {
        let mut line: usize = first;
        while line <= last
            invariant
                old(self).inv(),
                first <= line <= last + 1,
                last < old(self).alloc_sizes.len(),
                self.same_starts(old(self)),
                self.objects@ == old(self).objects@,
                forall|l: int|
                    0 <= l < old(self).alloc_sizes.len() ==> #[trigger] self.marked_line(l) == (old(
                        self,
                    ).marked_line(l) || first <= l < line),
                forall|b: int|
                    0 <= b < old(self).blocks.len() ==> #[trigger] self.blocks[b].any_marked == (
                    old(self).blocks[b].any_marked || exists|l: int|
                        first <= l < line && l / 256 == b && !#[trigger] old(self).marked_line(l)),
            decreases last + 1 - line,
        {
            let b: usize = line / LINES_PER_BLOCK;
            let at: usize = line % LINES_PER_BLOCK;
            let ghost before = *self;
            let won = self.blocks[b].claim_line(at);
            proof {
                assert(before.marked_line(line as int) == old(self).marked_line(line as int));
                assert(won == !before.blocks[b as int].marked(at as int));
                assert forall|l: int| 0 <= l < old(self).alloc_sizes.len() implies #[trigger]
                self.marked_line(l) == (old(self).marked_line(l) || first <= l < line + 1) by {
                    assert(before.marked_line(l) == (old(self).marked_line(l) || first <= l
                        < line));
                }
                assert forall|c: int| 0 <= c < old(self).blocks.len() implies #[trigger]
                self.blocks[c].any_marked == (old(self).blocks[c].any_marked || exists|l: int|
                    first <= l < line + 1 && l / 256 == c && !#[trigger] old(self).marked_line(
                        l,
                    )) by {
                    assert(before.blocks[c].any_marked == (old(self).blocks[c].any_marked
                        || exists|l: int|
                        first <= l < line && l / 256 == c && !#[trigger] old(self).marked_line(l)));
                    if c == b && won {
                        assert(!old(self).marked_line(line as int));
                    }
                }
                assert(self.same_starts(old(self)));
            }
            line = line + 1;
        }
        proof {
            self.lemma_same_starts(old(self));
            if old(self).marks_seen() {
                assert forall|b: int|
                    0 <= b < self.blocks.len()
                        && !(#[trigger] self.blocks[b]).any_marked implies self.blocks[b].clear() by {
                    assert(!old(self).blocks[b].any_marked);
                    assert forall|x: int| 0 <= x < 256 implies !#[trigger] self.blocks[b].marked(
                        x,
                    ) by {
                        let l = b * 256 + x;
                        assert(self.marked_line(l) == self.blocks[b].marked(x));
                        assert(old(self).marked_line(l) == old(self).blocks[b].marked(x));
                    }
                }
            }
        }
    }

    /// The object bit and the line bits of the allocation at byte offset
    /// `start`; true for the claimer, and no change when it was claimed.
    pub fn claim_serial(&mut self, start: usize, size: usize) -> (won: bool)
        requires
            old(self).inv(),
            start % 16 == 0,
            old(self).is_start(start as int / 16),
            size == old(self).extent(start as int / 16) * 16,
        ensures
            won == !old(self).claimed(start as int / 16),
            !won ==> *final(self) == *old(self),
            won ==> final(self).claims_one(old(self), start as int / 16),
            final(self).inv(),
    {
        let q: usize = start / ALLOC_QUANTUM;
        let code: u8 = self.objects[q];
        if code & OBJECT_MARK != 0 {
            return false;
        }
        proof {
            lemma_claim_bit(code);
            assert(self.entry_ok(q as int));
        }
        self.objects[q] = code | OBJECT_MARK;
        let ghost mid = *self;
        proof {
            mid.lemma_bit_set(old(self), q as int);
        }
        self.claim_lines(start / LINE_SIZE, (start + size - 1) / LINE_SIZE);
        proof {
            self.lemma_lines_set(
                &mid,
                old(self),
                q as int,
                start as int / 128,
                (start + size - 1) / 128,
            );
        }
        true
    }

    proof fn lemma_bit_set(&self, before: &Tables, q: int)
        requires
            before.inv(),
            0 <= q < before.objects.len(),
            self.objects@ == before.objects@.update(q, (before.objects[q] | 0x80) as u8),
            self.alloc_sizes == before.alloc_sizes,
            self.blocks == before.blocks,
        ensures
            self.same_starts(before),
            self.inv(),
    {
        lemma_claim_bit(before.objects[q]);
        assert(self.same_starts(before)) by {
            assert forall|p: int| 0 <= p < self.objects.len() implies size_code(
                #[trigger] self.objects[p],
            ) == size_code(before.objects[p]) && kind_bits(self.objects[p]) == kind_bits(
                before.objects[p],
            ) by {}
        }
        self.lemma_same_starts(before);
    }

    proof fn lemma_lines_set(
        &self,
        mid: &Tables,
        before: &Tables,
        q: int,
        first: int,
        last: int,
    )
        requires
            before.inv(),
            before.is_start(q),
            first == q / 8,
            last == (q + before.extent(q) - 1) / 8,
            mid.same_starts(before),
            mid.objects@ == before.objects@.update(q, (before.objects[q] | 0x80) as u8),
            mid.blocks == before.blocks,
            self.same_starts(mid),
            self.objects@ == mid.objects@,
            forall|l: int|
                0 <= l < mid.alloc_sizes.len() ==> #[trigger] self.marked_line(l) == (
                mid.marked_line(l) || first <= l <= last),
            forall|b: int|
                0 <= b < mid.blocks.len() ==> #[trigger] self.blocks[b].any_marked == (
                mid.blocks[b].any_marked || exists|l: int|
                    first <= l <= last && l / 256 == b && !#[trigger] mid.marked_line(l)),
            mid.marks_seen() ==> self.marks_seen(),
        ensures
            self.claims_one(before, q),
    {
        assert(self.same_starts(before)) by {
            assert forall|p: int| 0 <= p < self.objects.len() implies size_code(
                #[trigger] self.objects[p],
            ) == size_code(before.objects[p]) && kind_bits(self.objects[p]) == kind_bits(
                before.objects[p],
            ) by {
                assert(size_code(mid.objects[p]) == size_code(before.objects[p]));
            }
            assert forall|b: int| 0 <= b < self.blocks.len() implies (
            #[trigger] self.blocks[b]).same_flags(&before.blocks[b]) by {
                assert(mid.blocks[b].same_flags(&before.blocks[b]));
            }
        }
        assert forall|l: int| 0 <= l < before.alloc_sizes.len() implies #[trigger] self.marked_line(
            l,
        ) == (before.marked_line(l) || before.on_line(q, l)) by {
            assert(mid.marked_line(l) == before.marked_line(l));
        }
        assert(before.marks_seen() ==> mid.marks_seen());
        assert forall|b: int| 0 <= b < self.blocks.len()
            && before.blocks[b].any_marked implies #[trigger] self.blocks[b].any_marked by {
            assert(mid.blocks[b].any_marked);
        }
    }

    /// `self` is `before` with exactly the allocation starting at `q` claimed:
    /// its claim bit, its lines, and the blocks' note of them.
    pub open spec fn claims_one(&self, before: &Tables, q: int) -> bool {
        &&& self.same_starts(before)
        &&& self.objects@ == before.objects@.update(q, (before.objects[q] | 0x80) as u8)
        &&& forall|l: int|
            0 <= l < before.alloc_sizes.len() ==> #[trigger] self.marked_line(l) == (
            before.marked_line(l) || before.on_line(q, l))
        &&& before.marks_seen() ==> self.marks_seen()
        &&& forall|b: int|
            0 <= b < self.blocks.len() && before.blocks[b].any_marked ==> #[trigger] self.blocks[b].any_marked
    }

    /// Claim the allocation containing byte `offset` for the open cycle, its
    /// object bit and its lines. `Some((start, size))` for the claimer, `None`
    /// when it was already claimed or `offset` is in no allocation.
    pub fn claim_allocation(&mut self, offset: usize) -> (r: Option<(usize, usize)>)
        requires
            old(self).inv(),
        ensures
            final(self).inv(),
            match r {
                Some((start, size)) => {
                    let q = start as int / 16;
                    &&& start % 16 == 0
                    &&& old(self).holds(q, offset as int)
                    &&& size == old(self).extent(q) * 16
                    &&& !old(self).claimed(q)
                    &&& final(self).claims_one(old(self), q)
                },
                None => {
                    &&& *final(self) == *old(self)
                    &&& old(self).sound() ==> forall|q: int| #[trigger]
                        old(self).holds(q, offset as int) ==> old(self).claimed(q)
                },
            },
    {
        match self.allocation_at(offset) {
            Some((start, size)) => {
                if self.claim_serial(start, size) {
                    Some((start, size))
                } else {
                    proof {
                        if old(self).sound() {
                            assert forall|q: int| #[trigger]
                                old(self).holds(q, offset as int) implies old(self).claimed(q) by {
                                old(self).lemma_unique(q, start as int / 16, offset as int);
                            }
                        }
                    }
                    None
                }
            },
            None => None,
        }
    }

    /// A claim keeps what the sweep relies on.
    pub proof fn lemma_claims_one(&self, before: &Tables, q: int)
        requires
            before.inv(),
            before.is_start(q),
            self.claims_one(before, q),
        ensures
            self.inv(),
            self.claimed(q),
            forall|p: int| p != q ==> #[trigger] self.claimed(p) == before.claimed(p),
            before.sound() ==> self.sound(),
            before.sound() && before.marks_whole() ==> self.marks_whole(),
            before.claims_held() ==> self.claims_held(),
    {
        self.lemma_same_starts(before);
        lemma_claim_bit(before.objects[q]);
        assert(self.objects[q] == before.objects[q] | 0x80);
        assert(self.is_start(q));
        assert forall|p: int| p != q implies #[trigger] self.claimed(p) == before.claimed(p) by {
            assert(self.is_start(p) == before.is_start(p));
            if self.is_start(p) {
                assert(self.objects[p] == before.objects[p]);
            }
        }
        if before.claims_held() {
            assert forall|p: int, l: int|
                #![trigger self.on_line(p, l)]
                self.claimed(p) && self.on_line(p, l) implies self.marked_line(l) by {
                assert(before.on_line(p, l));
                before.lemma_line_in_heap(p, l);
            }
        }
        if before.sound() && before.marks_whole() {
            assert forall|p: int, l: int| #[trigger] self.on_line(p, l) implies self.marked_line(l)
                == self.marked_line(p / 8) by {
                assert(before.on_line(p, l));
                before.lemma_line_in_heap(p, l);
                assert(before.entry_ok(p));
                assert(before.on_line(p, p / 8));
                before.lemma_line_in_heap(p, p / 8);
                assert(before.entry_ok(q));
                if p != q && l != p / 8 {
                    // `p` is a span, so no other allocation shares its lines.
                    assert(before.code(p) == 9);
                    if before.on_line(q, l) || before.on_line(q, p / 8) {
                        assert(before.is_start(p) && before.is_start(q));
                        assert(false);
                    }
                }
            }
        }
    }

    /// Claim the allocation containing byte `offset`, and queue it when this
    /// call claimed it.
    pub fn mark_allocation(&mut self, offset: usize, out: &mut Vec<(usize, usize)>)
        requires
            old(self).inv(),
        ensures
            final(self).inv(),
            final(self).marks_from(old(self), offset as int, old(out)@, final(out)@),
    {
        if let Some(claimed) = self.claim_allocation(offset) {
            out.push(claimed);
            assert(out@.drop_last() =~= old(out)@);
        }
    }

    /// What marking byte `offset` does to the tables and to a worklist.
    pub open spec fn marks_from(
        &self,
        before: &Tables,
        offset: int,
        work: Seq<(usize, usize)>,
        grown: Seq<(usize, usize)>,
    ) -> bool {
        ||| {
            &&& grown == work
            &&& *self == *before
            &&& before.sound() ==> forall|q: int| #[trigger]
                before.holds(q, offset) ==> before.claimed(q)
        }
        ||| {
            &&& grown.len() == work.len() + 1
            &&& grown.drop_last() == work
            &&& grown.last().0 % 16 == 0
            &&& before.holds(grown.last().0 as int / 16, offset)
            &&& grown.last().1 == before.extent(grown.last().0 as int / 16) * 16
            &&& !before.claimed(grown.last().0 as int / 16)
            &&& self.claims_one(before, grown.last().0 as int / 16)
        }
    }
}

} // verus!
