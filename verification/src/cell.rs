//! A cell: the one core object standing for an object of another language, in
//! the terms of the languages that hold it.
//!
//! One cell per object. The object's own language keeps it, as the protocol's
//! shadow, when it keeps one; for an object whose language keeps none, a map
//! from the object's address to the cell's. Neither roots the cell, so a cell
//! dies when its holders drop it, and its drop forgets it on the object or in
//! the map.

use vstd::prelude::*;

use crate::object::{
    next_address, referent, Body, BodyView, CellBody, CellView, Object, ObjectSeq, ObjectView,
    Objects,
};
use crate::value::{LangId, Value};

verus! {

/// Where the second holder's header lies.
pub const VIEW: usize = 16;

/// What a holder reads a cell under: its language, which of its views, and what
/// the object is described as.
pub struct Descriptor {
    pub view: CellView,
    pub name: String,
}

/// A cell descriptor for the holder `lang`; one per view a holder has.
pub fn descriptor(lang: LangId, view: u32, name: &str) -> (d: Descriptor)
    ensures
        d.view == (CellView { lang, view }),
        d.name@ == name@,
{
    Descriptor { view: CellView { lang, view }, name: name.to_owned() }
}

/// Give the descriptor its holder's language.
pub fn set_lang(desc: &mut Descriptor, lang: LangId)
    ensures
        final(desc).view == (CellView { lang, view: old(desc).view.view }),
        final(desc).name == old(desc).name,
{
    desc.view = CellView { lang, view: desc.view.view };
}

/// One object that has a cell and whose language keeps no shadow.
#[derive(Clone, Copy, Debug, PartialEq, Eq, Structural)]
pub struct CellEntry {
    pub object: usize,
    pub cell: usize,
}

/// Object address to cell address, for objects whose language keeps no shadow.
pub struct Cells {
    pub entries: Vec<CellEntry>,
}

/// The cell the map names for the object at `p`.
pub open spec fn entry_of(entries: Seq<CellEntry>, p: usize) -> Option<usize>
    decreases entries.len(),
{
    if entries.len() == 0 {
        None
    } else if entries.last().object == p {
        Some(entries.last().cell)
    } else {
        entry_of(entries.drop_last(), p)
    }
}

/// What an object's language answers when asked for the shadow it keeps.
#[derive(Clone, Copy, Debug, PartialEq, Eq, Structural)]
pub enum Shadow {
    /// It keeps one: this cell.
    Kept(usize),
    /// It keeps one where there is one, and there is none.
    Absent,
    /// It keeps none.
    Unsupported,
}

/// What an object's language answers when given a shadow to keep.
#[derive(Clone, Copy, Debug, PartialEq, Eq, Structural)]
pub enum Keep {
    Kept,
    /// Another thread's came first.
    Other(usize),
    /// It does not keep it after all.
    Refused,
}

/// The cell `v` is, if it is one.
pub open spec fn cell_of(all: ObjectSeq, v: Value) -> Option<CellBody> {
    match referent(all, v) {
        Some(o) => match o.body {
            BodyView::Cell(c) => Some(c),
            _ => None,
        },
        None => None,
    }
}

/// A cell as an object.
pub open spec fn cell_object(view: CellView, name: Seq<char>, v: Value, mapped: bool) -> ObjectView {
    ObjectView {
        lang: view.lang,
        ty_name: name,
        body: BodyView::Cell(CellBody { view, object: v, front: 0, mapped }),
    }
}

/// The map names one cell per object, and each is a cell of that object.
pub open spec fn cells_ok(all: ObjectSeq, entries: Seq<CellEntry>) -> bool {
    &&& forall|i: int, j: int|
        #![trigger entries[i], entries[j]]
        0 <= i < j < entries.len() ==> entries[i].object != entries[j].object
    &&& forall|i: int|
        0 <= i < entries.len() ==> is_mapped(all, #[trigger] entries[i])
}

/// Whether the map's entry leads to a cell of the object it is for.
pub open spec fn is_mapped(all: ObjectSeq, e: CellEntry) -> bool {
    &&& e.object != 0
    &&& cell_of(all, Value::Object(e.cell)) matches Some(c) && c.object == Value::Object(e.object)
        && c.mapped
}

/// How a value crosses to a holder.
#[derive(Clone, Copy, Debug, PartialEq, Eq, Structural)]
pub enum WrapPlan {
    /// It is no object, or has a cell: this value.
    Have(Value),
    /// Its language is to keep the cell made for it.
    MakeKept,
    /// The map is to name the cell made for it.
    MakeMapped,
}

pub open spec fn wrap_plan_of(entries: Seq<CellEntry>, v: Value, shadow: Shadow) -> WrapPlan {
    match v.address() {
        None => WrapPlan::Have(v),
        Some(p) => match shadow {
            Shadow::Kept(c) => WrapPlan::Have(Value::Object(c)),
            Shadow::Absent => WrapPlan::MakeKept,
            Shadow::Unsupported => match entry_of(entries, p) {
                Some(c) => WrapPlan::Have(Value::Object(c)),
                None => WrapPlan::MakeMapped,
            },
        },
    }
}

/// What wrapping an object whose language keeps no shadow comes to.
pub open spec fn wrapped(
    all: ObjectSeq,
    entries: Seq<CellEntry>,
    v: Value,
    view: CellView,
    name: Seq<char>,
) -> (ObjectSeq, Seq<CellEntry>, Value) {
    match wrap_plan_of(entries, v, Shadow::Unsupported) {
        WrapPlan::Have(c) => (all, entries, c),
        _ => (
            all.push(cell_object(view, name, v, true)),
            entries.push(CellEntry { object: v.address()->0, cell: next_address(all) }),
            Value::Object(next_address(all)),
        ),
    }
}

/// What `v` stands for when it is a cell, else `v`.
pub open spec fn unwrapped(all: ObjectSeq, v: Value) -> Value {
    match cell_of(all, v) {
        Some(c) => c.object,
        None => v,
    }
}

proof fn lemma_entry_none(entries: Seq<CellEntry>, p: usize)
    requires
        forall|i: int| 0 <= i < entries.len() ==> (#[trigger] entries[i]).object != p,
    ensures
        entry_of(entries, p) is None,
    decreases entries.len(),
{
    if entries.len() > 0 {
        let init = entries.drop_last();
        assert forall|i: int| 0 <= i < init.len() implies (#[trigger] init[i]).object != p by {
            assert(init[i] == entries[i]);
        }
        lemma_entry_none(init, p);
    }
}

proof fn lemma_entry_found(entries: Seq<CellEntry>, p: usize) -> (i: int)
    requires
        entry_of(entries, p) is Some,
    ensures
        0 <= i < entries.len(),
        entries[i] == (CellEntry { object: p, cell: entry_of(entries, p)->0 }),
    decreases entries.len(),
{
    if entries.last().object == p {
        entries.len() - 1
    } else {
        lemma_entry_found(entries.drop_last(), p)
    }
}

proof fn lemma_entry_at(entries: Seq<CellEntry>, i: int)
    requires
        forall|a: int, b: int|
            #![trigger entries[a], entries[b]]
            0 <= a < b < entries.len() ==> entries[a].object != entries[b].object,
        0 <= i < entries.len(),
    ensures
        entry_of(entries, entries[i].object) == Some(entries[i].cell),
    decreases entries.len(),
{
    if i < entries.len() - 1 {
        let init = entries.drop_last();
        assert(init[i] == entries[i]);
        assert forall|a: int, b: int|
            #![trigger init[a], init[b]]
            0 <= a < b < init.len() implies init[a].object != init[b].object by {
            assert(init[a] == entries[a] && init[b] == entries[b]);
        }
        lemma_entry_at(init, i);
        assert(entries[i].object != entries[entries.len() - 1].object);
    }
}

impl Cells {
    pub fn new() -> (c: Cells)
        ensures
            c.entries@ == Seq::<CellEntry>::empty(),
    {
        Cells { entries: Vec::new() }
    }

    fn position(&self, objects: &Objects, p: usize) -> (r: Option<usize>)
        requires
            cells_ok(objects@, self.entries@),
        ensures
            match entry_of(self.entries@, p) {
                Some(c) => r matches Some(i) && i < self.entries@.len() && self.entries@[i as int]
                    == (CellEntry { object: p, cell: c }),
                None => r is None && forall|k: int|
                    0 <= k < self.entries@.len() ==> (#[trigger] self.entries@[k]).object != p,
            },
    {
        let mut i: usize = 0;
        while i < self.entries.len()
            invariant
                cells_ok(objects@, self.entries@),
                i <= self.entries.len(),
                forall|k: int| 0 <= k < i ==> (#[trigger] self.entries@[k]).object != p,
            decreases self.entries.len() - i,
        {
            if self.entries[i].object == p {
                proof {
                    lemma_entry_at(self.entries@, i as int);
                }
                return Some(i);
            }
            i = i + 1;
        }
        proof {
            lemma_entry_none(self.entries@, p);
        }
        None
    }

    /// How `v` crosses, given what its language answers of the shadow it
    /// keeps for the holder.
    pub fn wrap_plan(&self, objects: &Objects, v: Value, shadow: Shadow) -> (plan: WrapPlan)
        requires
            cells_ok(objects@, self.entries@),
        ensures
            plan == wrap_plan_of(self.entries@, v, shadow),
    {
        match v.object_of() {
            None => WrapPlan::Have(v),
            Some(p) => match shadow {
                Shadow::Kept(c) => WrapPlan::Have(Value::Object(c)),
                Shadow::Absent => WrapPlan::MakeKept,
                Shadow::Unsupported => match self.position(objects, p) {
                    Some(i) => WrapPlan::Have(Value::Object(self.entries[i].cell)),
                    None => WrapPlan::MakeMapped,
                },
            },
        }
    }

    /// The cell of the object `p` once `made` was made for it and the map is to
    /// name it: another thread's where it came first.
    pub fn keep_mapped(&mut self, objects: &Objects, p: usize, made: usize) -> (c: usize)
        requires
            cells_ok(objects@, old(self).entries@),
            is_mapped(objects@, CellEntry { object: p, cell: made }),
        ensures
            cells_ok(objects@, final(self).entries@),
            match entry_of(old(self).entries@, p) {
                Some(other) => c == other && final(self).entries@ == old(self).entries@,
                None => c == made && final(self).entries@ == old(self).entries@.push(
                    CellEntry { object: p, cell: made },
                ),
            },
            entry_of(final(self).entries@, p) == Some(c),
    {
        match self.position(objects, p) {
            Some(i) => self.entries[i].cell,
            None => {
                let ghost was = self.entries@;
                self.entries.push(CellEntry { object: p, cell: made });
                proof {
                    let now = self.entries@;
                    assert forall|i: int, j: int|
                        #![trigger now[i], now[j]]
                        0 <= i < j < now.len() implies now[i].object != now[j].object by {
                        assert(now[i] == was[i]);
                        if j < was.len() {
                            assert(now[j] == was[j]);
                        }
                    }
                    assert forall|i: int| 0 <= i < now.len() implies is_mapped(
                        objects@,
                        #[trigger] now[i],
                    ) by {
                        if i < was.len() {
                            assert(now[i] == was[i]);
                        }
                    }
                }
                made
            },
        }
    }

    /// The cell of the object `p` once `made` was made for it and given to its
    /// language to keep: ours, the one that came first, or, where the language
    /// keeps none after all, the map's.
    pub fn keep_shadow(
        &mut self,
        objects: &mut Objects,
        p: usize,
        made: usize,
        answer: Keep,
    ) -> (c: usize)
        requires
            cells_ok(old(objects)@, old(self).entries@),
            p != 0,
            cell_of(old(objects)@, Value::Object(made)) matches Some(b) && b.object
                == Value::Object(p) && !b.mapped,
        ensures
            cells_ok(final(objects)@, final(self).entries@),
            match answer {
                Keep::Kept => c == made && final(objects)@ == old(objects)@
                    && final(self).entries@ == old(self).entries@,
                Keep::Other(other) => c == other && final(objects)@ == old(objects)@
                    && final(self).entries@ == old(self).entries@,
                Keep::Refused => {
                    &&& final(objects)@ == mapped_now(old(objects)@, made)
                    &&& match entry_of(old(self).entries@, p) {
                        Some(other) => c == other && final(self).entries@ == old(self).entries@,
                        None => c == made && final(self).entries@ == old(self).entries@.push(
                            CellEntry { object: p, cell: made },
                        ),
                    }
                },
            },
    {
        match answer {
            Keep::Kept => made,
            Keep::Other(other) => other,
            Keep::Refused => {
                let body: CellBody = match cell_body(objects, Value::Object(made)) {
                    Some(b) => b,
                    None => {
                        return made;
                    },
                };
                let ghost was = objects@;
                objects.set_body(made, Body::Cell(CellBody { mapped: true, ..body }));
                proof {
                    assert(objects@ =~= mapped_now(was, made));
                    assert forall|i: int| 0 <= i < self.entries@.len() implies is_mapped(
                        objects@,
                        #[trigger] self.entries@[i],
                    ) by {
                        let e = self.entries@[i];
                        assert(is_mapped(was, e));
                        assert(e.cell != made);
                    }
                }
                self.keep_mapped(objects, p, made)
            },
        }
    }
}

/// The cell at `p` marked as one the map names.
pub open spec fn mapped_now(all: ObjectSeq, p: usize) -> ObjectSeq {
    all.update(
        p - 1,
        ObjectView {
            body: BodyView::Cell(
                CellBody { mapped: true, ..(cell_of(all, Value::Object(p))->0) },
            ),
            ..all[p - 1]
        },
    )
}

/// The cell `v` is, if it is one.
pub fn cell_body(objects: &Objects, v: Value) -> (r: Option<CellBody>)
    ensures
        r == cell_of(objects@, v),
{
    match v.object_of() {
        Some(p) => if objects.has(p) {
            match &objects.get(p).body {
                Body::Cell(c) => Some(*c),
                _ => None,
            }
        } else {
            None
        },
        None => None,
    }
}

/// Whether the object at `p` is a cell.
pub fn is_cell(objects: &Objects, p: usize) -> (r: bool)
    ensures
        r == (cell_of(objects@, Value::Object(p)) is Some),
{
    cell_body(objects, Value::Object(p)).is_some()
}

/// A new cell for `v`, under `desc`. It is not rooted.
pub fn make(objects: &mut Objects, v: Value, desc: &Descriptor, mapped: bool) -> (p: usize)
    requires
        old(objects).room(1),
    ensures
        final(objects)@ == old(objects)@.push(cell_object(desc.view, desc.name@, v, mapped)),
        p == next_address(old(objects)@),
        cell_of(final(objects)@, Value::Object(p)) == Some(
            CellBody { view: desc.view, object: v, front: 0, mapped },
        ),
{
    let body = Body::Cell(CellBody { view: desc.view, object: v, front: 0, mapped });
    objects.add_object(
        Object { lang: desc.view.lang, ty_name: desc.name.as_str().to_owned(), body },
    )
}

/// More objects leave the map's cells as they are.
proof fn lemma_cells_grow(all: ObjectSeq, o: ObjectView, entries: Seq<CellEntry>)
    requires
        cells_ok(all, entries),
        all.len() < usize::MAX,
    ensures
        cells_ok(all.push(o), entries),
{
    assert forall|i: int| 0 <= i < entries.len() implies is_mapped(
        all.push(o),
        #[trigger] entries[i],
    ) by {
        assert(is_mapped(all, entries[i]));
    }
}

/// The cell for an object whose language keeps no shadow, made on first need;
/// `v` itself when it is not an object. A cell that exists already is answered
/// as it is, whatever descriptor it was made under.
pub fn wrap(objects: &mut Objects, cells: &mut Cells, v: Value, desc: &Descriptor) -> (r: Value)
    requires
        old(objects).room(1),
        cells_ok(old(objects)@, old(cells).entries@),
    ensures
        cells_ok(final(objects)@, final(cells).entries@),
        (final(objects)@, final(cells).entries@, r) == wrapped(
            old(objects)@,
            old(cells).entries@,
            v,
            desc.view,
            desc.name@,
        ),
{
    match cells.wrap_plan(objects, v, Shadow::Unsupported) {
        WrapPlan::Have(c) => c,
        _ => {
            let p: usize = match v.object_of() {
                Some(p) => p,
                None => {
                    return v;
                },
            };
            proof {
                lemma_cells_grow(
                    objects@,
                    cell_object(desc.view, desc.name@, v, true),
                    cells.entries@,
                );
            }
            let made: usize = make(objects, v, desc, true);
            let c: usize = cells.keep_mapped(objects, p, made);
            Value::Object(c)
        },
    }
}

/// The live cell of an object under a holder, given what its language answers
/// of the shadow it keeps.
pub open spec fn found(entries: Seq<CellEntry>, v: Value, shadow: Shadow) -> Option<Value> {
    match v.address() {
        None => None,
        Some(p) => match shadow {
            Shadow::Kept(c) => Some(Value::Object(c)),
            Shadow::Absent => None,
            Shadow::Unsupported => match entry_of(entries, p) {
                Some(c) => Some(Value::Object(c)),
                None => None,
            },
        },
    }
}

/// The live cell for `v`'s object, if there is one.
pub fn of(objects: &Objects, cells: &Cells, v: Value, shadow: Shadow) -> (r: Option<Value>)
    requires
        cells_ok(objects@, cells.entries@),
    ensures
        r == found(cells.entries@, v, shadow),
{
    match v.object_of() {
        None => None,
        Some(p) => match shadow {
            Shadow::Kept(c) => Some(Value::Object(c)),
            Shadow::Absent => None,
            Shadow::Unsupported => match cells.position(objects, p) {
                Some(i) => Some(Value::Object(cells.entries[i].cell)),
                None => None,
            },
        },
    }
}

/// The object behind `v` when `v` is a cell, else `v`.
pub fn unwrap(objects: &Objects, v: Value) -> (r: Value)
    ensures
        r == unwrapped(objects@, v),
{
    match cell_body(objects, v) {
        Some(c) => c.object,
        None => v,
    }
}

/// The view the cell `v` is read under.
pub fn descriptor_of(objects: &Objects, v: Value) -> (r: Option<CellView>)
    ensures
        r == match cell_of(objects@, v) {
            Some(c) => Some(c.view),
            None => None,
        },
{
    match cell_body(objects, v) {
        Some(c) => Some(c.view),
        None => None,
    }
}

/// The view the cell `v` is read under and the holder's object in front of it,
/// zero for none: what a holder asks on every crossing.
pub fn view_of(objects: &Objects, v: Value) -> (r: Option<(CellView, usize)>)
    ensures
        r == match cell_of(objects@, v) {
            Some(c) => Some((c.view, c.front)),
            None => None,
        },
{
    match cell_body(objects, v) {
        Some(c) => Some((c.view, c.front)),
        None => None,
    }
}

/// The objects with the cell `v` read under another descriptor.
pub open spec fn viewed(all: ObjectSeq, v: Value, view: CellView, name: Seq<char>) -> ObjectSeq {
    match cell_of(all, v) {
        Some(c) => all.update(
            v.address()->0 - 1,
            ObjectView {
                lang: view.lang,
                ty_name: name,
                body: BodyView::Cell(CellBody { view, ..c }),
            },
        ),
        None => all,
    }
}

/// Read the cell `v` under `desc` from now on; nothing for a value that is not
/// a cell.
pub fn view(objects: &mut Objects, v: Value, desc: &Descriptor)
    ensures
        final(objects)@ == viewed(old(objects)@, v, desc.view, desc.name@),
{
    match cell_body(objects, v) {
        Some(c) => match v.object_of() {
            Some(p) => objects.set(
                p,
                Object {
                    lang: desc.view.lang,
                    ty_name: desc.name.as_str().to_owned(),
                    body: Body::Cell(CellBody { view: desc.view, ..c }),
                },
            ),
            None => {},
        },
        None => {},
    }
}

/// The holder's object in front of the cell `v`, if it made one.
pub fn front(objects: &Objects, v: Value) -> (r: Option<usize>)
    ensures
        r == match cell_of(objects@, v) {
            Some(c) => if c.front != 0 {
                Some(c.front)
            } else {
                None
            },
            None => None,
        },
{
    match cell_body(objects, v) {
        Some(c) => if c.front != 0 {
            Some(c.front)
        } else {
            None
        },
        None => None,
    }
}

/// The objects with `p` in front of the cell `v`.
pub open spec fn fronted(all: ObjectSeq, v: Value, p: usize) -> ObjectSeq {
    match cell_of(all, v) {
        Some(c) => crate::object::with_body(
            all,
            v.address()->0,
            BodyView::Cell(CellBody { front: p, ..c }),
        ),
        None => all,
    }
}

/// Put `p`, the holder's own object, in front of the cell `v`.
pub fn set_front(objects: &mut Objects, v: Value, p: usize)
    ensures
        final(objects)@ == fronted(old(objects)@, v, p),
{
    match cell_body(objects, v) {
        Some(c) => match v.object_of() {
            Some(at) => objects.set_body(at, Body::Cell(CellBody { front: p, ..c })),
            None => {},
        },
        None => {},
    }
}

/// The cell at `p` as a value; null for none.
pub fn from_pointer(p: usize) -> (v: Value)
    ensures
        v == if p == 0 {
            Value::Null
        } else {
            Value::Object(p)
        },
{
    if p == 0 {
        Value::Null
    } else {
        Value::Object(p)
    }
}

/// The cell at `p` is dead: its entry goes, where it is the one the map names;
/// a cell that is no map's is for its object's language to forget, and the
/// object's address is answered.
pub fn dropped(objects: &Objects, cells: &mut Cells, p: usize) -> (r: Option<usize>)
    requires
        cells_ok(objects@, old(cells).entries@),
        cell_of(objects@, Value::Object(p)) is Some,
    ensures
        cells_ok(objects@, final(cells).entries@),
        ({
            let c = cell_of(objects@, Value::Object(p))->0;
            match c.object.address() {
                None => r is None && final(cells).entries@ == old(cells).entries@,
                Some(key) => {
                    &&& r == if c.mapped {
                        None
                    } else {
                        Some(key)
                    }
                    &&& forall|o: usize| #[trigger]
                        entry_of(final(cells).entries@, o) == if c.mapped && o == key && entry_of(
                            old(cells).entries@,
                            o,
                        ) == Some(p) {
                            None
                        } else {
                            entry_of(old(cells).entries@, o)
                        }
                },
            }
        }),
{
    let c: CellBody = match cell_body(objects, Value::Object(p)) {
        Some(c) => c,
        None => {
            return None;
        },
    };
    let key: usize = match c.object.object_of() {
        Some(key) => key,
        None => {
            return None;
        },
    };
    if !c.mapped {
        return Some(key);
    }
    if let Some(i) = cells.position(objects, key) {
        if cells.entries[i].cell == p {
            let ghost was = cells.entries@;
            let _gone: CellEntry = cells.entries.remove(i);
            proof {
                let now = cells.entries@;
                assert forall|a: int, b: int|
                    #![trigger now[a], now[b]]
                    0 <= a < b < now.len() implies now[a].object != now[b].object by {
                    let oa = if a < i { a } else { a + 1 };
                    let ob = if b < i { b } else { b + 1 };
                    assert(now[a] == was[oa] && now[b] == was[ob]);
                }
                assert forall|k: int| 0 <= k < now.len() implies is_mapped(
                    objects@,
                    #[trigger] now[k],
                ) by {
                    let o = if k < i { k } else { k + 1 };
                    assert(now[k] == was[o]);
                }
                assert forall|o: usize| #[trigger]
                    entry_of(now, o) == if o == key {
                        None
                    } else {
                        entry_of(was, o)
                    } by {
                    lemma_entry_removed(was, i as int, o);
                }
            }
        }
    }
    None
}

proof fn lemma_entry_removed(entries: Seq<CellEntry>, i: int, p: usize)
    requires
        forall|a: int, b: int|
            #![trigger entries[a], entries[b]]
            0 <= a < b < entries.len() ==> entries[a].object != entries[b].object,
        0 <= i < entries.len(),
    ensures
        entry_of(entries.remove(i), p) == if p == entries[i].object {
            None
        } else {
            entry_of(entries, p)
        },
    decreases entries.len(),
{
    let init = entries.drop_last();
    if i == entries.len() - 1 {
        assert(entries.remove(i) =~= init);
        assert forall|k: int| 0 <= k < init.len() implies (#[trigger] init[k]).object
            != entries[i].object by {
            assert(init[k] == entries[k]);
        }
        lemma_entry_none(init, entries[i].object);
    } else {
        assert forall|a: int, b: int|
            #![trigger init[a], init[b]]
            0 <= a < b < init.len() implies init[a].object != init[b].object by {
            assert(init[a] == entries[a] && init[b] == entries[b]);
        }
        assert(entries.remove(i).drop_last() =~= init.remove(i));
        assert(init[i] == entries[i]);
        lemma_entry_removed(init, i, p);
        assert(entries[i].object != entries[entries.len() - 1].object);
    }
}

/// One cell per object: wrapped again, under any descriptor, an object is
/// answered the cell it has, and nothing is made.
pub proof fn law_one_cell_per_object(
    all: ObjectSeq,
    entries: Seq<CellEntry>,
    v: Value,
    view: CellView,
    name: Seq<char>,
    other: CellView,
    other_name: Seq<char>,
)
    requires
        cells_ok(all, entries),
    ensures
        ({
            let (after, now, c) = wrapped(all, entries, v, view, name);
            wrapped(after, now, v, other, other_name) == (after, now, c)
        }),
{
    let (after, now, c) = wrapped(all, entries, v, view, name);
    assert(now.drop_last() =~= entries || now == entries);
}

/// A cell leads back to the object it stands for, and a value that is no object
/// crosses as itself.
pub proof fn law_unwrap_undoes_wrap(
    all: ObjectSeq,
    entries: Seq<CellEntry>,
    v: Value,
    view: CellView,
    name: Seq<char>,
)
    requires
        cells_ok(all, entries),
        all.len() < usize::MAX,
    ensures
        ({
            let (after, now, c) = wrapped(all, entries, v, view, name);
            unwrapped(after, c) == v
        }),
        v.address() is Some ==> ({
            let (after, now, c) = wrapped(all, entries, v, view, name);
            found(now, v, Shadow::Unsupported) == Some(c)
        }),
{
    if v.address() is Some {
        let p = v.address()->0;
        if entry_of(entries, p) is Some {
            let i = lemma_entry_found(entries, p);
            assert(is_mapped(all, entries[i]));
        }
    }
}

} // verus!
