//! The hooks a descriptor may carry: how a traced object is walked, and what
//! runs when it dies.

use vstd::prelude::*;

verus! {

/// What the collector asks of the descriptors found at word zero of traced
/// objects. A host implements it over its own types.
pub trait TypeHooks {
    /// Whether the descriptor walks its objects itself.
    spec fn traces(&self, desc: u64) -> bool;

    /// The addresses the descriptor's walk of `obj` marks.
    spec fn targets(&self, desc: u64, obj: usize, words: Seq<u64>) -> Seq<u64>;

    /// Whether the descriptor has work to do when an object dies.
    spec fn drops(&self, desc: u64) -> bool;

    /// The objects dropped so far, in order.
    spec fn dropped(&self) -> Seq<usize>;

    fn has_trace(&self, desc: u64) -> (r: bool)
        ensures
            r == self.traces(desc),
    ;

    fn trace(&self, desc: u64, obj: usize, words: &[u64]) -> (r: Vec<u64>)
        requires
            self.traces(desc),
        ensures
            r@ == self.targets(desc, obj, words@),
    ;

    fn has_drop(&self, desc: u64) -> (r: bool)
        ensures
            r == self.drops(desc),
    ;

    fn drop_object(&mut self, desc: u64, obj: usize)
        ensures
            final(self).dropped() == old(self).dropped().push(obj),
            final(self).same_types(old(self)),
    ;

    /// The descriptors are those of `other`.
    spec fn same_types(&self, other: &Self) -> bool;

    /// Dropping an object changes no descriptor.
    proof fn lemma_same_types(&self, other: &Self)
        requires
            self.same_types(other),
        ensures
            forall|d: u64| #[trigger] self.drops(d) == other.drops(d),
            forall|d: u64| #[trigger] self.traces(d) == other.traces(d),
            forall|d: u64, o: usize, w: Seq<u64>| #[trigger]
                self.targets(d, o, w) == other.targets(d, o, w),
    ;

    proof fn lemma_types_chain(&self, mid: &Self, other: &Self)
        requires
            self.same_types(mid),
            mid.same_types(other),
        ensures
            self.same_types(other),
    ;

    proof fn lemma_types_self(&self)
        ensures
            self.same_types(self),
    ;
}

/// One descriptor of a [`FieldHooks`] table: the word indices of the fields
/// its objects point through, and whether dying objects are recorded.
pub struct FieldDesc {
    pub desc: u64,
    pub traces: bool,
    pub fields: Vec<usize>,
    pub drops: bool,
}

/// Descriptors as data: each traced object is walked through the listed
/// fields, and each dropped object is recorded.
pub struct FieldHooks {
    pub descs: Vec<FieldDesc>,
    pub log: Vec<usize>,
}

/// The words of the listed fields, those past the end left out.
pub open spec fn field_words(fields: Seq<usize>, words: Seq<u64>) -> Seq<u64>
    decreases fields.len(),
{
    if fields.len() == 0 {
        Seq::empty()
    } else {
        let init = field_words(fields.drop_last(), words);
        if fields.last() < words.len() {
            init.push(words[fields.last() as int])
        } else {
            init
        }
    }
}

impl FieldHooks {
    pub fn new() -> (h: FieldHooks)
        ensures
            h.descs@.len() == 0,
            h.log@.len() == 0,
    {
        FieldHooks { descs: Vec::new(), log: Vec::new() }
    }

    /// The index of the first entry for `desc`, or the table's length.
    pub open spec fn find(descs: Seq<FieldDesc>, desc: u64) -> int
        decreases descs.len(),
    {
        if descs.len() == 0 {
            0
        } else {
            let i = FieldHooks::find(descs.drop_last(), desc);
            if i < descs.len() - 1 || descs.last().desc == desc {
                i
            } else {
                descs.len() as int
            }
        }
    }

    fn index_of(&self, desc: u64) -> (r: usize)
        ensures
            r == FieldHooks::find(self.descs@, desc),
            r <= self.descs.len(),
            r < self.descs.len() ==> self.descs[r as int].desc == desc,
    {
        let mut i: usize = 0;
        while i < self.descs.len()
            invariant
                i <= self.descs.len(),
                FieldHooks::find(self.descs@.take(i as int), desc) == i,
            decreases self.descs.len() - i,
        {
            let ghost next = self.descs@.take(i + 1);
            assert(next.drop_last() =~= self.descs@.take(i as int));
            if self.descs[i].desc == desc {
                proof {
                    self.lemma_found(i as int, desc);
                }
                return i;
            }
            i = i + 1;
        }
        assert(self.descs@.take(i as int) =~= self.descs@);
        i
    }

    proof fn lemma_found(&self, i: int, desc: u64)
        requires
            0 <= i < self.descs.len(),
            self.descs[i].desc == desc,
            FieldHooks::find(self.descs@.take(i), desc) == i,
        ensures
            FieldHooks::find(self.descs@, desc) == i,
    {
        self.lemma_found_within(i, desc, self.descs.len() as int);
        assert(self.descs@.take(self.descs.len() as int) =~= self.descs@);
    }

    proof fn lemma_found_within(&self, i: int, desc: u64, n: int)
        requires
            0 <= i < n <= self.descs.len(),
            self.descs[i].desc == desc,
            FieldHooks::find(self.descs@.take(i), desc) == i,
        ensures
            FieldHooks::find(self.descs@.take(n), desc) == i,
        decreases n,
    {
        assert(self.descs@.take(n).drop_last() =~= self.descs@.take(n - 1));
        if i < n - 1 {
            self.lemma_found_within(i, desc, n - 1);
        }
    }
}

impl TypeHooks for FieldHooks {
    open spec fn traces(&self, desc: u64) -> bool {
        let i = FieldHooks::find(self.descs@, desc);
        i < self.descs.len() && self.descs[i].traces
    }

    open spec fn targets(&self, desc: u64, obj: usize, words: Seq<u64>) -> Seq<u64> {
        field_words(self.descs[FieldHooks::find(self.descs@, desc)].fields@, words)
    }

    open spec fn drops(&self, desc: u64) -> bool {
        let i = FieldHooks::find(self.descs@, desc);
        i < self.descs.len() && self.descs[i].drops
    }

    open spec fn dropped(&self) -> Seq<usize> {
        self.log@
    }

    open spec fn same_types(&self, other: &Self) -> bool {
        self.descs@ == other.descs@
    }

    proof fn lemma_same_types(&self, other: &Self) {
    }

    proof fn lemma_types_chain(&self, mid: &Self, other: &Self) {
    }

    proof fn lemma_types_self(&self) {
    }

    fn has_trace(&self, desc: u64) -> (r: bool) {
        let i: usize = self.index_of(desc);
        i < self.descs.len() && self.descs[i].traces
    }

    fn trace(&self, desc: u64, obj: usize, words: &[u64]) -> (r: Vec<u64>) {
        let i: usize = self.index_of(desc);
        let mut out: Vec<u64> = Vec::new();
        let mut k: usize = 0;
        let ghost fields = self.descs[i as int].fields@;
        while k < self.descs[i].fields.len()
            invariant
                i < self.descs.len(),
                fields == self.descs[i as int].fields@,
                k <= fields.len(),
                out@ == field_words(fields.take(k as int), words@),
            decreases fields.len() - k,
        {
            assert(fields.take(k + 1).drop_last() =~= fields.take(k as int));
            let at: usize = self.descs[i].fields[k];
            if at < words.len() {
                out.push(words[at]);
            }
            k = k + 1;
        }
        assert(fields.take(k as int) =~= fields);
        out
    }

    fn has_drop(&self, desc: u64) -> (r: bool) {
        let i: usize = self.index_of(desc);
        i < self.descs.len() && self.descs[i].drops
    }

    fn drop_object(&mut self, desc: u64, obj: usize) {
        self.log.push(obj);
    }
}

} // verus!
