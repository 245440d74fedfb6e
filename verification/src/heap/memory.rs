//! The heap's bytes, as machine words at a base address.

use vstd::prelude::*;

verus! {

/// A reservation of whole words at `base`.
pub struct HeapMemory {
    pub base: usize,
    pub words: Vec<u64>,
}

impl HeapMemory {
    /// The reservation fits the address space and starts on a line.
    pub open spec fn inv(&self) -> bool {
        &&& self.base + self.words.len() * 8 <= usize::MAX
        &&& self.base % 128 == 0
        &&& 0 < self.base
    }

    /// The reservation's length in bytes.
    pub open spec fn size(&self) -> int {
        self.words.len() * 8
    }

    /// Whether address `addr` lies inside the reservation.
    pub open spec fn contains(&self, addr: int) -> bool {
        self.base <= addr < self.base + self.size()
    }

    /// Reserve `words` zeroed words at `base`.
    pub fn new(base: usize, words: usize) -> (m: HeapMemory)
        requires
            base + words * 8 <= usize::MAX,
            base % 128 == 0,
            0 < base,
        ensures
            m.inv(),
            m.base == base,
            m.words@ == Seq::new(words as nat, |i: int| 0u64),
    {
        let mut cells: Vec<u64> = Vec::new();
        let mut i: usize = 0;
        while i < words
            invariant
                i <= words,
                cells@ == Seq::new(i as nat, |k: int| 0u64),
            decreases words - i,
        {
            cells.push(0);
            i = i + 1;
            assert(cells@ =~= Seq::new(i as nat, |k: int| 0u64));
        }
        HeapMemory { base, words: cells }
    }

    /// The end of the reservation.
    pub fn end(&self) -> (r: usize)
        requires
            self.inv(),
        ensures
            r == self.base + self.size(),
    {
        self.base + self.words.len() * 8
    }

    /// The heap offset of `addr`, if it lies inside the reservation.
    pub fn offset_of(&self, addr: usize) -> (r: Option<usize>)
        requires
            self.inv(),
        ensures
            r == if self.contains(addr as int) {
                Some((addr - self.base) as usize)
            } else {
                None
            },
    {
        if addr >= self.base && addr < self.end() {
            Some(addr - self.base)
        } else {
            None
        }
    }

    /// The word at address `addr`; `None` off a word or outside the heap.
    pub fn read(&self, addr: usize) -> (r: Option<u64>)
        requires
            self.inv(),
        ensures
            r == if self.contains(addr as int) && addr % 8 == 0 {
                Some(self.words[(addr - self.base) / 8])
            } else {
                None
            },
    {
        match self.offset_of(addr) {
            Some(offset) => if addr % 8 == 0 {
                Some(self.words[offset / 8])
            } else {
                None
            },
            None => None,
        }
    }

    /// Store a word at address `addr`; false, and no change, off a word or
    /// outside the heap.
    pub fn write(&mut self, addr: usize, word: u64) -> (stored: bool)
        requires
            old(self).inv(),
        ensures
            stored == (old(self).contains(addr as int) && addr % 8 == 0),
            final(self).base == old(self).base,
            final(self).words@ == if stored {
                old(self).words@.update((addr - old(self).base) / 8, word)
            } else {
                old(self).words@
            },
            final(self).inv(),
    {
        match self.offset_of(addr) {
            Some(offset) => if addr % 8 == 0 {
                self.words[offset / 8] = word;
                true
            } else {
                false
            },
            None => false,
        }
    }

    /// Set `count` words from word `from` to `value`.
    pub fn fill(&mut self, from: usize, count: usize, value: u64)
        requires
            old(self).inv(),
            from + count <= old(self).words.len(),
        ensures
            final(self).inv(),
            final(self).base == old(self).base,
            final(self).words.len() == old(self).words.len(),
            forall|k: int|
                0 <= k < old(self).words.len() ==> #[trigger] final(self).words[k] == if from <= k
                    < from + count {
                    value
                } else {
                    old(self).words[k]
                },
    {
        let mut i: usize = 0;
        while i < count
            invariant
                i <= count,
                self.inv(),
                self.base == old(self).base,
                self.words.len() == old(self).words.len(),
                from + count <= old(self).words.len(),
                forall|k: int|
                    0 <= k < old(self).words.len() ==> #[trigger] self.words[k] == if from <= k
                        < from + i {
                        value
                    } else {
                        old(self).words[k]
                    },
            decreases count - i,
        {
            self.words[from + i] = value;
            i = i + 1;
        }
    }
}

} // verus!
