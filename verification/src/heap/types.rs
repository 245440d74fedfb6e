//! Marking through a host's type descriptions: the lines of every description
//! a value's type leads to.

use vstd::prelude::*;
use vstd::set_lib::{lemma_int_range, set_int_range};

use crate::heap::immix::ImmixAllocator;
use crate::heap::layout::{BLOCK_SIZE, LINE_SIZE};

verus! {

/// What one type description refers to, by address; zero for none.
pub enum TypeKind {
    Object { fields: Vec<usize>, sup: usize },
    Function { args: Vec<usize>, ret: usize },
    /// The parameters of each constructor.
    Enum { constructs: Vec<Vec<usize>> },
    Null { param: usize },
    Other,
}

pub struct TypeNode {
    pub addr: usize,
    pub kind: TypeKind,
}

/// The type descriptions a host has laid out, each at its own address.
pub struct TypeGraph {
    pub nodes: Vec<TypeNode>,
}

/// The parameters of `constructs`, in order.
pub open spec fn all_params(constructs: Seq<Vec<usize>>) -> Seq<usize>
    decreases constructs.len(),
{
    if constructs.len() == 0 {
        Seq::empty()
    } else {
        all_params(constructs.drop_last()) + constructs.last()@
    }
}

impl TypeKind {
    /// The descriptions referred to, in the order they are visited.
    pub open spec fn children(&self) -> Seq<usize> {
        match self {
            TypeKind::Object { fields, sup } => fields@.push(*sup),
            TypeKind::Function { args, ret } => args@.push(*ret),
            TypeKind::Enum { constructs } => all_params(constructs@),
            TypeKind::Null { param } => seq![*param],
            TypeKind::Other => Seq::empty(),
        }
    }

    /// [`Self::children`].
    pub fn referred(&self) -> (r: Vec<usize>)
        ensures
            r@ == self.children(),
    {
        let mut out: Vec<usize> = Vec::new();
        match self {
            TypeKind::Object { fields, sup } => {
                push_all(&mut out, fields);
                out.push(*sup);
            },
            TypeKind::Function { args, ret } => {
                push_all(&mut out, args);
                out.push(*ret);
            },
            TypeKind::Enum { constructs } => {
                let mut i: usize = 0;
                assert(constructs@.take(0) =~= Seq::<Vec<usize>>::empty());
                while i < constructs.len()
                    invariant
                        i <= constructs.len(),
                        out@ == all_params(constructs@.take(i as int)),
                    decreases constructs.len() - i,
                {
                    assert(constructs@.take(i + 1).drop_last() =~= constructs@.take(i as int));
                    push_all(&mut out, &constructs[i]);
                    i = i + 1;
                }
                assert(constructs@.take(i as int) =~= constructs@);
            },
            TypeKind::Null { param } => {
                out.push(*param);
            },
            TypeKind::Other => {},
        }
        out
    }
}

fn push_all(out: &mut Vec<usize>, from: &Vec<usize>)
    ensures
        final(out)@ == old(out)@ + from@,
{
    let mut i: usize = 0;
    while i < from.len()
        invariant
            i <= from.len(),
            out@ == old(out)@ + from@.take(i as int),
        decreases from.len() - i,
    {
        out.push(from[i]);
        i = i + 1;
    }
}

impl TypeGraph {
    /// What the description at `addr` refers to: nothing where there is none.
    pub open spec fn children(&self, addr: usize) -> Seq<usize> {
        children_in(self.nodes@, addr)
    }

    fn referred(&self, addr: usize) -> (r: Vec<usize>)
        ensures
            r@ == self.children(addr),
    {
        let mut i: usize = 0;
        assert(self.nodes@.skip(0) =~= self.nodes@);
        while i < self.nodes.len()
            invariant
                i <= self.nodes.len(),
                children_in(self.nodes@, addr) == children_in(self.nodes@.skip(i as int), addr),
            decreases self.nodes.len() - i,
        {
            assert(self.nodes@.skip(i as int).drop_first() =~= self.nodes@.skip(i + 1));
            if self.nodes[i].addr == addr {
                return self.nodes[i].kind.referred();
            }
            i = i + 1;
        }
        Vec::new()
    }
}

/// What the first of `nodes` at `addr` refers to.
pub open spec fn children_in(nodes: Seq<TypeNode>, addr: usize) -> Seq<usize>
    decreases nodes.len(),
{
    if nodes.len() == 0 {
        Seq::empty()
    } else if nodes[0].addr == addr {
        nodes[0].kind.children()
    } else {
        children_in(nodes.drop_first(), addr)
    }
}

/// The lines still unmarked once the descriptions of `work` were visited in
/// turn: one whose line was unmarked marks it, and what it refers to is visited
/// before what is left.
pub open spec fn left_unmarked(
    graph: &TypeGraph,
    base: int,
    size: int,
    free: Set<int>,
    work: Seq<usize>,
) -> Set<int>
    decreases free.len(), work.len(),
    when free.finite()
{
    if work.len() == 0 {
        free
    } else {
        let p = work[0];
        let line = (p - base) / 128;
        let rest = work.drop_first();
        if base <= p < base + size && free.contains(line) {
            left_unmarked(graph, base, size, free.remove(line), graph.children(p) + rest)
        } else {
            left_unmarked(graph, base, size, free, rest)
        }
    }
}

/// One step of marking a value: the lines of a run of bytes, or a type.
pub enum Touch {
    Bytes { addr: usize, size: usize },
    Type { addr: usize },
}

/// The lines of `free` still unmarked after `step`.
pub open spec fn after_step(
    graph: &TypeGraph,
    base: int,
    size: int,
    free: Set<int>,
    step: Touch,
) -> Set<int> {
    match step {
        Touch::Bytes { addr, size: n } => free.filter(
            |l: int| !bytes_touch(base, size, addr as int, n as int, l),
        ),
        Touch::Type { addr } => left_unmarked(graph, base, size, free, seq![addr]),
    }
}

/// Whether marking `n` bytes from `addr`, a line at a time, marks line `l`.
pub open spec fn bytes_touch(base: int, size: int, addr: int, n: int, l: int) -> bool {
    base <= addr < base + size && exists|k: int|
        0 <= k && k * 128 < n && addr + k * 128 < base + size && #[trigger] line_past(
            base,
            addr,
            k,
        ) == l
}

/// The heap line of the byte `k` lines past `addr`.
pub open spec fn line_past(base: int, addr: int, k: int) -> int {
    (addr + k * 128 - base) / 128
}

/// The lines of `free` still unmarked after all of `steps`.
pub open spec fn after_steps(
    graph: &TypeGraph,
    base: int,
    size: int,
    free: Set<int>,
    steps: Seq<Touch>,
) -> Set<int>
    decreases steps.len(),
{
    if steps.len() == 0 {
        free
    } else {
        after_step(
            graph,
            base,
            size,
            after_steps(graph, base, size, free, steps.drop_last()),
            steps.last(),
        )
    }
}

/// What a boxed value holds, as its type says.
pub enum Payload {
    Nothing,
    Object { t: usize },
    Closure { t: usize, fun: usize, value: Option<Box<Boxed>> },
    /// `header` bytes, then `len` elements of `element` bytes each.
    Array { addr: usize, t: usize, at: usize, header: usize, len: i32, element: usize },
}

/// A boxed value of `size` bytes at `addr`, of the type at `t`.
pub struct Boxed {
    pub addr: usize,
    pub size: usize,
    pub t: usize,
    pub payload: Payload,
}

/// The bytes of an array, no fewer than its header.
pub open spec fn array_bytes(header: usize, len: i32, element: usize) -> int {
    header + (if len > 0 {
        len as int
    } else {
        0
    }) * element
}

impl Boxed {
    /// The whole value can be addressed.
    pub open spec fn fits(&self) -> bool
        decreases self,
    {
        &&& self.addr + self.size + 128 <= usize::MAX
        &&& match self.payload {
            Payload::Closure { t, fun, value } => fun + 8 + 128 <= usize::MAX && match value {
                Some(v) => v.fits(),
                None => true,
            },
            Payload::Array { addr, t, at, header, len, element } => addr + array_bytes(
                header,
                len,
                element,
            ) + 128 <= usize::MAX,
            _ => true,
        }
    }

    /// What marking the value touches, in order: nothing for one outside the
    /// heap.
    pub open spec fn touches(&self, base: int, size: int) -> Seq<Touch>
        decreases self,
    {
        if !(base <= self.addr < base + size) {
            Seq::empty()
        } else {
            let own = seq![
                Touch::Bytes { addr: self.addr, size: self.size },
                Touch::Type { addr: self.t },
            ];
            match self.payload {
                Payload::Nothing => own,
                Payload::Object { t } => own.push(Touch::Type { addr: t }),
                Payload::Closure { t, fun, value } => own.push(Touch::Type { addr: t }).push(
                    Touch::Bytes { addr: fun, size: 8 },
                ) + match value {
                    Some(v) => v.touches(base, size),
                    None => Seq::empty(),
                },
                Payload::Array { addr, t, at, header, len, element } => own.push(
                    Touch::Type { addr: t },
                ).push(Touch::Type { addr: at }).push(
                    Touch::Bytes { addr, size: array_bytes(header, len, element) as usize },
                ),
            }
        }
    }

    /// [`Self::touches`].
    fn touched(&self, base: usize, end: usize) -> (steps: Vec<Touch>)
        requires
            self.fits(),
            base <= end,
        ensures
            steps@ == self.touches(base as int, end - base),
            forall|i: int| 0 <= i < steps.len() ==> step_fits(#[trigger] steps[i]),
        decreases self,
    {
        let mut out: Vec<Touch> = Vec::new();
        if self.addr < base || self.addr >= end {
            return out;
        }
        out.push(Touch::Bytes { addr: self.addr, size: self.size });
        out.push(Touch::Type { addr: self.t });
        match &self.payload {
            Payload::Nothing => {},
            Payload::Object { t } => {
                out.push(Touch::Type { addr: *t });
            },
            Payload::Closure { t, fun, value } => {
                out.push(Touch::Type { addr: *t });
                out.push(Touch::Bytes { addr: *fun, size: 8 });
                match value {
                    Some(v) => {
                        let mut more = v.touched(base, end);
                        let ghost first = out@;
                        let ghost second = more@;
                        out.append(&mut more);
                        proof {
                            assert(out@ == first + second);
                            assert forall|i: int| 0 <= i < out.len() implies step_fits(
                                #[trigger] out[i],
                            ) by {
                                if i >= first.len() {
                                    assert(out[i] == second[i - first.len()]);
                                }
                            }
                        }
                    },
                    None => {},
                }
            },
            Payload::Array { addr, t, at, header, len, element } => {
                out.push(Touch::Type { addr: *t });
                out.push(Touch::Type { addr: *at });
                let n: usize = if *len > 0 {
                    *len as usize
                } else {
                    0
                };
                proof {
                    assert(n * *element >= 0) by (nonlinear_arith);
                }
                let body: usize = n * *element;
                out.push(Touch::Bytes { addr: *addr, size: *header + body });
            },
        }
        out
    }
}

/// A run of bytes can be stepped over a line at a time.
pub open spec fn step_fits(step: Touch) -> bool {
    step matches Touch::Bytes { addr, size } ==> addr + size + 128 <= usize::MAX
}

impl ImmixAllocator {
    /// The heap lines that are not marked.
    pub open spec fn unmarked_lines(&self) -> Set<int> {
        set_int_range(0, self.space.tables.alloc_sizes.len() as int).filter(
            |l: int| !self.space.tables.marked_line(l),
        )
    }

    proof fn lemma_unmarked_finite(&self)
        ensures
            self.unmarked_lines().finite(),
    {
        let n = self.space.tables.alloc_sizes.len() as int;
        lemma_int_range(0, n);
        set_int_range(0, n).lemma_len_filter(|l: int| !self.space.tables.marked_line(l));
    }

    /// Mark the line of the description at `addr`, if it is in the heap and not
    /// marked yet.
    fn mark_type_line(&mut self, addr: usize) -> (won: bool)
        requires
            old(self).wf(),
        ensures
            final(self).wf(),
            final(self).only_claims(old(self)),
            final(self).space.tables.objects@ == old(self).space.tables.objects@,
            final(self).space.tables.same_starts(&old(self).space.tables),
            won == (old(self).space.memory.contains(addr as int) && old(
                self,
            ).unmarked_lines().contains((addr - old(self).space.memory.base) / 128)),
            final(self).unmarked_lines() == if won {
                old(self).unmarked_lines().remove((addr - old(self).space.memory.base) / 128)
            } else {
                old(self).unmarked_lines()
            },
    {
        let offset: usize = match self.space.memory.offset_of(addr) {
            Some(o) => o,
            None => {
                return false;
            },
        };
        let b: usize = offset / BLOCK_SIZE;
        let line: usize = offset % BLOCK_SIZE / LINE_SIZE;
        let ghost here = offset as int / 128;
        assert(here / 256 == b && here % 256 == line);
        if self.space.tables.blocks[b].is_marked(line) {
            return false;
        }
        assert(self.unmarked_lines().contains(here));
        self.space.tables.blocks[b].set_mark(line);
        proof {
            let n = self.space.tables.alloc_sizes.len() as int;
            assert forall|l: int| 0 <= l < n implies #[trigger] self.space.tables.marked_line(l)
                == (l == here || old(self).space.tables.marked_line(l)) by {
                if l / 256 == b {
                    assert(l % 256 == line ==> l == here);
                }
            }
            assert(self.unmarked_lines() =~= old(self).unmarked_lines().remove(here));
            assert(self.space.tables.same_starts(&old(self).space.tables));
            self.space.lemma_claims_wf(&old(self).space);
        }
        true
    }

    /// Mark the type description at `addr` and all it leads to; one outside the
    /// heap is not followed, and neither is one whose line is marked already.
    pub fn mark_object(&mut self, graph: &TypeGraph, addr: usize)
        requires
            old(self).wf(),
        ensures
            final(self).wf(),
            final(self).only_claims(old(self)),
            final(self).space.tables.objects@ == old(self).space.tables.objects@,
            final(self).space.tables.same_starts(&old(self).space.tables),
            final(self).unmarked_lines() == left_unmarked(
                graph,
                old(self).space.memory.base as int,
                old(self).space.memory.size(),
                old(self).unmarked_lines(),
                seq![addr],
            ),
    {
        let mut stack: Vec<usize> = Vec::new();
        stack.push(addr);
        let ghost mut work = seq![addr];
        let ghost base = self.space.memory.base as int;
        let ghost size = self.space.memory.size();
        proof {
            self.lemma_unmarked_finite();
        }
        while stack.len() > 0
            invariant
                self.wf(),
                base == old(self).space.memory.base,
                size == old(self).space.memory.size(),
                self.only_claims(old(self)),
                self.space.tables.objects@ == old(self).space.tables.objects@,
                self.space.tables.same_starts(&old(self).space.tables),
                self.unmarked_lines().finite(),
                stack.len() == work.len(),
                forall|i: int| 0 <= i < work.len() ==> work[i] == stack[work.len() - 1 - i],
                left_unmarked(graph, base, size, old(self).unmarked_lines(), seq![addr])
                    == left_unmarked(graph, base, size, self.unmarked_lines(), work),
            decreases self.unmarked_lines().len(), stack.len(),
        {
            let ghost before = *self;
            let p: usize = stack[stack.len() - 1];
            let ghost top = stack.len() - 1;
            stack.pop();
            let ghost rest = work.drop_first();
            assert(work[0] == p);
            let won: bool = self.mark_type_line(p);
            proof {
                self.lemma_unmarked_finite();
                before.lemma_unmarked_finite();
            }
            if won {
                let below: Vec<usize> = graph.referred(p);
                let mut k: usize = below.len();
                let ghost kept = stack@;
                while k > 0
                    invariant
                        k <= below.len(),
                        stack.len() == kept.len() + (below.len() - k),
                        forall|i: int| 0 <= i < kept.len() ==> stack[i] == kept[i],
                        forall|i: int|
                            kept.len() <= i < stack.len() ==> #[trigger] stack[i]
                                == below[below.len() - 1 - (i - kept.len())],
                    decreases k,
                {
                    k = k - 1;
                    stack.push(below[k]);
                }
                proof {
                    let was = work;
                    work = graph.children(p) + rest;
                    assert forall|i: int| 0 <= i < work.len() implies work[i] == stack[work.len()
                        - 1 - i] by {
                        if i >= below.len() {
                            let j = i - below.len();
                            assert(rest[j] == was[j + 1]);
                            assert(stack[work.len() - 1 - i] == kept[work.len() - 1 - i]);
                        } else {
                            assert(work[i] == below[i as int]);
                        }
                    }
                }
            } else {
                proof {
                    work = rest;
                }
            }
        }
        proof {
            assert(work =~= Seq::<usize>::empty());
        }
    }

    /// Mark a boxed value: its own bytes, its type, and what its payload names.
    pub fn mark_vdynamic(&mut self, graph: &TypeGraph, value: &Boxed)
        requires
            old(self).wf(),
            value.fits(),
        ensures
            final(self).wf(),
            final(self).only_claims(old(self)),
            final(self).space.tables.objects@ == old(self).space.tables.objects@,
            final(self).space.tables.same_starts(&old(self).space.tables),
            final(self).unmarked_lines() == after_steps(
                graph,
                old(self).space.memory.base as int,
                old(self).space.memory.size(),
                old(self).unmarked_lines(),
                value.touches(old(self).space.memory.base as int, old(self).space.memory.size()),
            ),
    {
        let base: usize = self.space.memory.base;
        let end: usize = self.space.memory.end();
        let steps: Vec<Touch> = value.touched(base, end);
        let ghost size = self.space.memory.size();
        let mut i: usize = 0;
        assert(steps@.take(0) =~= Seq::<Touch>::empty());
        while i < steps.len()
            invariant
                i <= steps.len(),
                base == old(self).space.memory.base,
                size == old(self).space.memory.size(),
                self.wf(),
                self.only_claims(old(self)),
                self.space.tables.objects@ == old(self).space.tables.objects@,
                self.space.tables.same_starts(&old(self).space.tables),
                forall|k: int| 0 <= k < steps.len() ==> step_fits(#[trigger] steps[k]),
                self.unmarked_lines() == after_steps(
                    graph,
                    base as int,
                    size,
                    old(self).unmarked_lines(),
                    steps@.take(i as int),
                ),
            decreases steps.len() - i,
        {
            let ghost before = *self;
            assert(steps@.take(i + 1).drop_last() =~= steps@.take(i as int));
            assert(step_fits(steps[i as int]));
            match &steps[i] {
                Touch::Bytes { addr, size: n } => {
                    self.mark_memory(*addr, *n);
                    proof {
                        self.lemma_bytes_step(&before, *addr as int, *n as int);
                    }
                },
                Touch::Type { addr } => {
                    self.mark_object(graph, *addr);
                },
            }
            i = i + 1;
        }
        assert(steps@.take(i as int) =~= steps@);
    }

    proof fn lemma_bytes_step(&self, before: &ImmixAllocator, addr: int, n: int)
        requires
            before.wf(),
            self.space.tables.alloc_sizes.len() == before.space.tables.alloc_sizes.len(),
            forall|l: int|
                0 <= l < before.space.tables.alloc_sizes.len()
                    ==> #[trigger] self.space.tables.marked_line(l) == (
                before.space.tables.marked_line(l) || (before.space.memory.contains(addr)
                    && exists|k: int|
                    0 <= k && k * 128 < n && #[trigger] before.touched_line(addr, k) == l
                        && before.space.memory.contains(addr + k * 128))),
        ensures
            self.unmarked_lines() == before.unmarked_lines().filter(
                |l: int|
                    !bytes_touch(
                        before.space.memory.base as int,
                        before.space.memory.size(),
                        addr,
                        n,
                        l,
                    ),
            ),
    {
        let base = before.space.memory.base as int;
        let size = before.space.memory.size();
        assert forall|l: int|
            0 <= l < before.space.tables.alloc_sizes.len() implies self.space.tables.marked_line(l)
            == (before.space.tables.marked_line(l) || #[trigger] bytes_touch(
            base,
            size,
            addr,
            n,
            l,
        )) by {
            let _ = self.space.tables.marked_line(l);
            if before.space.memory.contains(addr) {
                if bytes_touch(base, size, addr, n, l) {
                    let k = choose|k: int|
                        0 <= k && k * 128 < n && addr + k * 128 < base + size
                            && #[trigger] line_past(base, addr, k) == l;
                    assert(before.touched_line(addr, k) == l);
                }
                if exists|k: int|
                    0 <= k && k * 128 < n && #[trigger] before.touched_line(addr, k) == l
                        && before.space.memory.contains(addr + k * 128) {
                    let k = choose|k: int|
                        0 <= k && k * 128 < n && #[trigger] before.touched_line(addr, k) == l
                            && before.space.memory.contains(addr + k * 128);
                    assert(line_past(base, addr, k) == l);
                }
            }
        }
        assert(self.unmarked_lines() =~= before.unmarked_lines().filter(
            |l: int| !bytes_touch(base, size, addr, n, l),
        ));
    }
}

/// Marking a type only ever adds marks.
pub proof fn law_types_keep_marks(
    graph: &TypeGraph,
    base: int,
    size: int,
    free: Set<int>,
    work: Seq<usize>,
)
    requires
        free.finite(),
    ensures
        left_unmarked(graph, base, size, free, work).subset_of(free),
    decreases free.len(), work.len(),
{
    if work.len() > 0 {
        let p = work[0];
        let line = (p - base) / 128;
        let rest = work.drop_first();
        if base <= p < base + size && free.contains(line) {
            law_types_keep_marks(graph, base, size, free.remove(line), graph.children(p) + rest);
        } else {
            law_types_keep_marks(graph, base, size, free, rest);
        }
    }
}

/// Every description visited in the heap ends on a marked line.
pub proof fn law_types_marked(
    graph: &TypeGraph,
    base: int,
    size: int,
    free: Set<int>,
    work: Seq<usize>,
    p: usize,
)
    requires
        free.finite(),
        work.contains(p),
        base <= p < base + size,
    ensures
        !left_unmarked(graph, base, size, free, work).contains((p - base) / 128),
    decreases free.len(), work.len(),
{
    let head = work[0];
    let line = (head - base) / 128;
    let rest = work.drop_first();
    let i = choose|i: int| 0 <= i < work.len() && work[i] == p;
    if i > 0 {
        assert(rest[i - 1] == p);
    }
    if base <= head < base + size && free.contains(line) {
        let next = graph.children(head) + rest;
        if i == 0 {
            law_types_keep_marks(graph, base, size, free.remove(line), next);
        } else {
            assert(next[graph.children(head).len() + i - 1] == p);
            law_types_marked(graph, base, size, free.remove(line), next, p);
        }
    } else if i == 0 {
        law_types_keep_marks(graph, base, size, free, rest);
    } else {
        law_types_marked(graph, base, size, free, rest, p);
    }
}

} // verus!
