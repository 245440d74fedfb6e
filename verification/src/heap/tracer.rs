//! What a trace hook marks through, and what the core's own objects hold.

use vstd::prelude::*;

use crate::function::Function;
use crate::heap::layout::ALLOC_QUANTUM;
use crate::heap::tables::Tables;
use crate::object::{object_at, Body, BodyView, CellBody, Objects, Settlement, TraceFrame};
use crate::value::Value;

verus! {

/// The addresses a hook marks, in order.
pub struct Marks {
    pub marked: Vec<u64>,
}

/// The addresses with those of `v` behind them: an object's address.
pub open spec fn with_value(marked: Seq<u64>, v: Value) -> Seq<u64> {
    match v {
        Value::Object(p) => marked.push(p as u64),
        _ => marked,
    }
}

/// The addresses with those of all of `values` behind them.
pub open spec fn with_values(marked: Seq<u64>, values: Seq<Value>) -> Seq<u64>
    decreases values.len(),
{
    if values.len() == 0 {
        marked
    } else {
        with_value(with_values(marked, values.drop_last()), values.last())
    }
}

impl Marks {
    pub fn new() -> (t: Marks)
        ensures
            t.marked@ == Seq::<u64>::empty(),
    {
        Marks { marked: Vec::new() }
    }

    /// Note the address `ptr`.
    pub fn mark(&mut self, ptr: usize)
        ensures
            final(self).marked@ == old(self).marked@.push(ptr as u64),
    {
        self.marked.push(ptr as u64);
    }

    /// [`Self::mark`] for a value: an object is marked, every other value is
    /// ignored.
    pub fn mark_value(&mut self, v: Value)
        ensures
            final(self).marked@ == with_value(old(self).marked@, v),
    {
        if let Value::Object(p) = v {
            self.mark(p);
        }
    }
}

/// What a trace hook marks through: the side tables and the worklist of the
/// marker that called it. Lives only for the hook's call.
pub struct Tracer {
    pub tables: Tables,
    /// Where the heap begins.
    pub base: usize,
    pub out: Vec<(usize, usize)>,
}

impl Tracer {
    /// The tables are in order, and the heap ends where addresses do.
    pub open spec fn wf(&self) -> bool {
        &&& self.tables.inv()
        &&& self.tables.sound()
        &&& self.base + self.tables.size() <= usize::MAX
    }

    /// Whether `addr` lies in the allocation starting at quantum `q`.
    pub open spec fn points_into(&self, addr: int, q: int) -> bool {
        self.base <= addr < self.base + self.tables.size() && self.tables.holds(
            q,
            addr - self.base,
        )
    }

    /// The tracer after `addr` was marked in `before`: an unclaimed allocation
    /// that holds it is claimed and queued. Nothing differs for an address
    /// outside the heap, in no allocation, or in one that was claimed.
    pub open spec fn marked(&self, before: &Tracer, addr: int) -> bool {
        &&& self.base == before.base
        &&& forall|q: int| #[trigger]
            before.points_into(addr, q) && !before.tables.claimed(q) ==> {
                &&& self.tables.claims_one(&before.tables, q)
                &&& self.out@ == before.out@.push(
                    ((q * 16) as usize, (before.tables.extent(q) * 16) as usize),
                )
            }
        &&& (forall|q: int| #[trigger]
            before.points_into(addr, q) ==> before.tables.claimed(q)) ==> self.tables
            == before.tables && self.out@ == before.out@
    }

    /// Claim the allocation `ptr` points into, interior pointers included, and
    /// queue it for tracing. Anything outside the heap is ignored.
    pub fn mark(&mut self, ptr: usize)
        requires
            old(self).wf(),
        ensures
            final(self).wf(),
            final(self).marked(old(self), ptr as int),
    {
        let size: usize = self.tables.objects.len() * ALLOC_QUANTUM;
        if ptr < self.base || ptr - self.base >= size {
            return ;
        }
        let offset: usize = ptr - self.base;
        self.tables.mark_allocation(offset, &mut self.out);
        proof {
            let was = old(self).tables;
            if self.out@ != old(self).out@ {
                let last = self.out@.last();
                let q0 = last.0 as int / 16;
                assert(was.holds(q0, offset as int));
                was.lemma_unique(q0, q0, offset as int);
                assert(old(self).points_into(ptr as int, q0));
                assert forall|q: int| #[trigger] old(self).points_into(
                    ptr as int,
                    q,
                ) implies q == q0 by {
                    was.lemma_unique(q, q0, offset as int);
                }
                self.tables.lemma_claims_one(&was, q0);
                assert(self.out@ =~= old(self).out@.push(
                    ((q0 * 16) as usize, (was.extent(q0) * 16) as usize),
                ));
            } else {
                assert forall|q: int| #[trigger] old(self).points_into(
                    ptr as int,
                    q,
                ) implies was.claimed(q) by {
                    assert(was.holds(q, offset as int));
                }
            }
        }
    }

    /// [`Self::mark`] for a value: an object is marked, every other value is
    /// ignored.
    pub fn mark_value(&mut self, v: Value)
        requires
            old(self).wf(),
        ensures
            final(self).wf(),
            match v {
                Value::Object(p) => final(self).marked(old(self), p as int),
                _ => *final(self) == *old(self),
            },
    {
        if let Value::Object(p) = v {
            self.mark(p);
        }
    }
}

/// The values the frames of a trace hold.
pub open spec fn frame_values(frames: Seq<TraceFrame>) -> Seq<Value>
    decreases frames.len(),
{
    if frames.len() == 0 {
        Seq::empty()
    } else {
        frame_values(frames.drop_last()).push(frames.last().name).push(frames.last().source)
    }
}

/// The values a core object keeps alive.
pub open spec fn held_values(body: BodyView) -> Seq<Value> {
    match body {
        BodyView::Trace(frames, _) => frame_values(frames),
        BodyView::Error(e) => seq![e.message, e.cause, e.native, e.trace],
        BodyView::Buffer { storage, len: _ } => seq![Value::Object(storage)],
        BodyView::Enum { ty: _, index: _, fields } => fields,
        BodyView::Function { callable, name, arity } => match (Function {
            callable,
            name,
            arity,
        }).held_value() {
            Some(v) => seq![v],
            None => Seq::empty(),
        },
        BodyView::Future { settlement, waiters: _ } => match settlement {
            Some(Settlement::Resolved(v)) => seq![v],
            Some(Settlement::Rejected(v)) => seq![v],
            None => Seq::empty(),
        },
        BodyView::Cell(c) => if c.front != 0 {
            seq![c.object, Value::Object(c.front)]
        } else {
            seq![c.object]
        },
        _ => Seq::empty(),
    }
}

/// [`held_values`].
pub fn held(body: &Body) -> (r: Vec<Value>)
    ensures
        r@ == held_values(body@),
{
    let mut r: Vec<Value> = Vec::new();
    match body {
        Body::Trace(frames, _) => {
            let mut i: usize = 0;
            assert(frames@.take(0) =~= Seq::<TraceFrame>::empty());
            assert(r@ =~= Seq::<Value>::empty());
            while i < frames.len()
                invariant
                    i <= frames.len(),
                    r@ == frame_values(frames@.take(i as int)),
                decreases frames.len() - i,
            {
                assert(frames@.take(i + 1).drop_last() =~= frames@.take(i as int));
                r.push(frames[i].name);
                r.push(frames[i].source);
                i = i + 1;
            }
            assert(frames@.take(i as int) =~= frames@);
        },
        Body::Error(e) => {
            r.push(e.message);
            r.push(e.cause);
            r.push(e.native);
            r.push(e.trace);
        },
        Body::Buffer { storage, len: _ } => {
            r.push(Value::Object(*storage));
        },
        Body::Enum { ty: _, index: _, fields } => {
            r = fields.clone();
            assert(r@ =~= fields@);
        },
        Body::Function { callable, name, arity } => {
            let f = Function { callable: *callable, name: *name, arity: *arity };
            if let Some(v) = f.held() {
                r.push(v);
            }
        },
        Body::Future { settlement, waiters: _ } => match settlement {
            Some(Settlement::Resolved(v)) => {
                r.push(*v);
            },
            Some(Settlement::Rejected(v)) => {
                r.push(*v);
            },
            None => {},
        },
        Body::Cell(c) => {
            r.push(c.object);
            if c.front != 0 {
                r.push(Value::Object(c.front));
            }
        },
        _ => {},
    }
    assert(r@ =~= held_values(body@));
    r
}

/// Mark everything a core object keeps alive.
pub fn trace(objects: &Objects, p: usize, marks: &mut Marks)
    requires
        object_at(objects@, p) is Some,
    ensures
        final(marks).marked@ == with_values(
            old(marks).marked@,
            held_values(objects@[p - 1].body),
        ),
{
    let values: Vec<Value> = held(&objects.get(p).body);
    let mut i: usize = 0;
    assert(values@.take(0) =~= Seq::<Value>::empty());
    while i < values.len()
        invariant
            i <= values.len(),
            marks.marked@ == with_values(old(marks).marked@, values@.take(i as int)),
        decreases values.len() - i,
    {
        assert(values@.take(i + 1).drop_last() =~= values@.take(i as int));
        marks.mark_value(values[i]);
        i = i + 1;
    }
    assert(values@.take(i as int) =~= values@);
}

/// A live cell keeps its object, and the holder's object in front of it.
pub proof fn law_a_cell_keeps_its_object(marked: Seq<u64>, c: CellBody)
    ensures
        ({
            let all = with_values(marked, held_values(BodyView::Cell(c)));
            &&& c.object matches Value::Object(p) ==> all.contains(p as u64)
            &&& c.front != 0 ==> all.contains(c.front as u64)
        }),
{
    reveal_with_fuel(with_values, 3);
    let values = held_values(BodyView::Cell(c));
    let one = with_value(marked, c.object);
    if c.front != 0 {
        assert(values.drop_last() =~= seq![c.object]);
        assert(seq![c.object].drop_last() =~= Seq::<Value>::empty());
        let all = one.push(c.front as u64);
        assert(all == with_values(marked, values));
        assert(all[all.len() - 1] == c.front as u64);
        if let Value::Object(p) = c.object {
            assert(all[one.len() - 1] == p as u64);
        }
    } else {
        assert(values.drop_last() =~= Seq::<Value>::empty());
        assert(one == with_values(marked, values));
        if let Value::Object(p) = c.object {
            assert(one[one.len() - 1] == p as u64);
        }
    }
}

} // verus!
