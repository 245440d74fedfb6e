//! What a run did, in the program's own terms: the tier each function reached,
//! how each send across the bridge went, and what crossed untyped. Each
//! adapter answers for its language; a driver gathers the answers into a
//! [`Report`] and prints it.

use vstd::prelude::*;
use vstd::string::*;
use vstd::utf8::encode_utf8;

use crate::text::{chars_of, decimal, decimal_text};

pub mod laws;

verus! {

/// How a function ran by the end of the run.
#[derive(Clone, Copy, Debug, PartialEq, Eq, Structural)]
pub enum Tier {
    Interpreted,
    /// The first compiled tier.
    Baseline,
    /// The optimizing tier.
    Optimized,
}

impl Tier {
    pub open spec fn words(self) -> Seq<char> {
        match self {
            Tier::Interpreted => "interpreted"@,
            Tier::Baseline => "baseline"@,
            Tier::Optimized => "optimized"@,
        }
    }

    pub fn label(self) -> (s: &'static str)
        ensures
            s@ == self.words(),
    {
        match self {
            Tier::Interpreted => "interpreted",
            Tier::Baseline => "baseline",
            Tier::Optimized => "optimized",
        }
    }
}

/// One function of the program: its name as the language writes it, the tier
/// it reached, and how many times it was entered when the runtime counted.
#[derive(Debug)]
pub struct Function {
    pub name: String,
    pub tier: Tier,
    pub entries: Option<u64>,
}

/// One place a program sends across the bridge. `direct` says whether the site
/// holds a direct send now, `plain` how many sends took the plain path, and
/// `boxed_in` and `boxed_out` how many scalars arrived and left boxed, through
/// a parameter or result the program declared dynamic.
#[derive(Debug)]
pub struct Site {
    pub name: String,
    pub direct: bool,
    pub plain: usize,
    pub boxed_in: usize,
    pub boxed_out: usize,
}

/// The functions that crossed as closures: typed ones the other language calls
/// as its own, and boxed ones it calls through a var-args shim.
#[derive(Clone, Copy, Debug)]
pub struct Callbacks {
    pub typed: u64,
    pub boxed: u64,
}

/// The whole run, one section per language and per direction.
#[derive(Debug)]
pub struct Report {
    pub sections: Vec<Section>,
    pub callbacks: Callbacks,
}

/// A titled list of rows.
#[derive(Debug)]
pub struct Section {
    pub title: String,
    pub rows: Rows,
}

#[derive(Debug)]
pub enum Rows {
    Functions(Vec<Function>),
    Sites(Vec<Site>),
}

// Rows by name.

/// Whether `a` comes before `b`: the first character that differs decides, and
/// a text comes before its continuations.
pub open spec fn precedes(a: Seq<char>, b: Seq<char>) -> bool
    decreases a.len(),
{
    if b.len() == 0 {
        false
    } else if a.len() == 0 {
        true
    } else if a[0] != b[0] {
        a[0] < b[0]
    } else {
        precedes(a.drop_first(), b.drop_first())
    }
}

fn comes_before(a: &str, b: &str) -> (r: bool)
    ensures
        r == precedes(a@, b@),
{
    let x: Vec<char> = chars_of(a);
    let y: Vec<char> = chars_of(b);
    let mut i: usize = 0;
    assert(x@.skip(0) =~= x@);
    assert(y@.skip(0) =~= y@);
    loop
        invariant
            i <= x.len(),
            i <= y.len(),
            x@ == a@,
            y@ == b@,
            precedes(a@, b@) == precedes(x@.skip(i as int), y@.skip(i as int)),
        decreases x.len() - i,
    {
        if i == y.len() {
            return false;
        }
        if i == x.len() {
            return true;
        }
        if x[i] != y[i] {
            return x[i] < y[i];
        }
        assert(x@.skip(i as int).drop_first() =~= x@.skip(i + 1));
        assert(y@.skip(i as int).drop_first() =~= y@.skip(i + 1));
        i = i + 1;
    }
}

/// A row with a name.
pub trait Named {
    spec fn named(&self) -> Seq<char>;

    fn name(&self) -> (s: &str)
        ensures
            s@ == self.named(),
    ;
}

impl Named for Function {
    open spec fn named(&self) -> Seq<char> {
        self.name@
    }

    fn name(&self) -> (s: &str) {
        self.name.as_str()
    }
}

impl Named for Site {
    open spec fn named(&self) -> Seq<char> {
        self.name@
    }

    fn name(&self) -> (s: &str) {
        self.name.as_str()
    }
}

/// How many of the rows of `list`, from the start, come before `name`.
pub open spec fn rank<T: Named>(list: Seq<T>, name: Seq<char>) -> int
    decreases list.len(),
{
    if list.len() == 0 || !precedes(list[0].named(), name) {
        0
    } else {
        1 + rank(list.drop_first(), name)
    }
}

/// The rows by name; rows of one name in the order they came in.
pub open spec fn by_name<T: Named>(rows: Seq<T>) -> Seq<T>
    decreases rows.len(),
{
    if rows.len() == 0 {
        rows
    } else {
        let rest = by_name(rows.drop_first());
        rest.insert(rank(rest, rows[0].named()), rows[0])
    }
}

proof fn lemma_rank<T: Named>(list: Seq<T>, name: Seq<char>, i: int)
    requires
        0 <= i <= list.len(),
        forall|k: int| 0 <= k < i ==> precedes((#[trigger] list[k]).named(), name),
        i == list.len() || !precedes(list[i].named(), name),
    ensures
        rank(list, name) == i,
    decreases list.len(),
{
    if i > 0 {
        let rest = list.drop_first();
        assert(precedes(list[0].named(), name));
        assert forall|k: int| 0 <= k < i - 1 implies precedes(
            (#[trigger] rest[k]).named(),
            name,
        ) by {
            assert(rest[k] == list[k + 1]);
        }
        lemma_rank(rest, name, i - 1);
    }
}

fn sort_rows<T: Named>(rows: Vec<T>) -> (out: Vec<T>)
    ensures
        out@ == by_name(rows@),
{
    let ghost all = rows@;
    let mut rows = rows;
    let mut out: Vec<T> = Vec::new();
    assert(all.skip(all.len() as int) =~= Seq::<T>::empty());
    while rows.len() > 0
        invariant
            rows@.len() <= all.len(),
            rows@ == all.take(rows@.len() as int),
            out@ == by_name(all.skip(rows@.len() as int)),
        decreases rows.len(),
    {
        let ghost n = rows@.len() as int;
        let row: T = rows.pop().unwrap();
        assert(row == all[n - 1]);
        assert(all.skip(n - 1).drop_first() =~= all.skip(n));
        let mut i: usize = 0;
        while i < out.len() && comes_before(out[i].name(), row.name())
            invariant
                i <= out.len(),
                forall|k: int| 0 <= k < i ==> precedes((#[trigger] out@[k]).named(), row.named()),
            decreases out.len() - i,
        {
            i = i + 1;
        }
        proof {
            lemma_rank(out@, row.named(), i as int);
        }
        out.insert(i, row);
    }
    assert(all.skip(0) =~= all);
    out
}

// The text.

pub open spec fn spaces(n: int) -> Seq<char>
    decreases n,
{
    if n <= 0 {
        Seq::empty()
    } else {
        spaces(n - 1).push(' ')
    }
}

/// `s` with spaces behind it, up to `width` characters.
pub open spec fn padded(s: Seq<char>, width: int) -> Seq<char> {
    s + spaces(width - s.len())
}

fn add_padded(out: &mut String, s: &str, width: usize)
    ensures
        final(out)@ == old(out)@ + padded(s@, width as int),
{
    out.append(s);
    let n: usize = s.unicode_len();
    let ghost head = out@;
    let mut i: usize = n;
    assert(head + Seq::<char>::empty() =~= head);
    while i < width
        invariant
            n <= i,
            i <= width || i == n,
            out@ == head + spaces(i - n),
        decreases width - i,
    {
        let ghost before = out@;
        out.push(' ');
        assert(out@ =~= head + spaces(i - n).push(' '));
        i = i + 1;
    }
    assert(out@ =~= old(out)@ + padded(s@, width as int));
}

/// The longest name of `list` in bytes, and at least `least`.
pub open spec fn widest<T: Named>(list: Seq<T>, least: nat) -> nat
    decreases list.len(),
{
    if list.len() == 0 {
        least
    } else {
        let rest = widest(list.drop_last(), least);
        let own = encode_utf8(list.last().named()).len();
        if own > rest {
            own
        } else {
            rest
        }
    }
}

pub open spec fn section_width(s: Section, least: nat) -> nat {
    match s.rows {
        Rows::Functions(rows) => widest(rows@, least),
        Rows::Sites(rows) => widest(rows@, least),
    }
}

/// How wide the names are: as wide as the longest, and at least 24.
pub open spec fn name_width(sections: Seq<Section>) -> nat
    decreases sections.len(),
{
    if sections.len() == 0 {
        24
    } else {
        section_width(sections.last(), name_width(sections.drop_last()))
    }
}

pub open spec fn function_line(f: Function, width: nat) -> Seq<char> {
    "  "@ + padded(f.name@, width as int) + "  "@ + padded(f.tier.words(), 11) + (match f.entries {
        Some(n) => "  "@ + decimal(n as nat),
        None => Seq::empty(),
    }) + "\n"@
}

pub open spec fn site_line(s: Site, width: nat) -> Seq<char> {
    "  "@ + padded(s.name@, width as int) + "  "@ + padded(
        if s.direct {
            "direct"@
        } else {
            "plain"@
        },
        11,
    ) + (if s.plain > 0 {
        "  "@ + decimal(s.plain as nat) + " plain"@
    } else {
        Seq::empty()
    }) + "\n"@
}

pub open spec fn function_lines(rows: Seq<Function>, width: nat) -> Seq<char>
    decreases rows.len(),
{
    if rows.len() == 0 {
        Seq::empty()
    } else {
        function_lines(rows.drop_last(), width) + function_line(rows.last(), width)
    }
}

pub open spec fn site_lines(rows: Seq<Site>, width: nat) -> Seq<char>
    decreases rows.len(),
{
    if rows.len() == 0 {
        Seq::empty()
    } else {
        site_lines(rows.drop_last(), width) + site_line(rows.last(), width)
    }
}

pub open spec fn rows_text(rows: Rows, width: nat) -> Seq<char> {
    match rows {
        Rows::Functions(list) => if list@.len() == 0 {
            "  (none)\n"@
        } else {
            function_lines(list@, width)
        },
        Rows::Sites(list) => if list@.len() == 0 {
            "  (none)\n"@
        } else {
            site_lines(list@, width)
        },
    }
}

pub open spec fn sections_text(sections: Seq<Section>, width: nat) -> Seq<char>
    decreases sections.len(),
{
    if sections.len() == 0 {
        Seq::empty()
    } else {
        sections_text(sections.drop_last(), width) + sections.last().title@ + "\n"@ + rows_text(
            sections.last().rows,
            width,
        ) + "\n"@
    }
}

/// Whether scalars crossed boxed at the site.
pub open spec fn is_boxed(s: Site) -> bool {
    s.boxed_in > 0 || s.boxed_out > 0
}

pub open spec fn boxed_line(s: Site, width: nat) -> Seq<char> {
    "  "@ + padded(s.name@, width as int) + (if s.boxed_in > 0 {
        "  "@ + decimal(s.boxed_in as nat) + " in"@
    } else {
        Seq::empty()
    }) + (if s.boxed_out > 0 {
        "  "@ + decimal(s.boxed_out as nat) + " out"@
    } else {
        Seq::empty()
    }) + "\n"@
}

pub open spec fn boxed_in_rows(rows: Seq<Site>, width: nat) -> Seq<char>
    decreases rows.len(),
{
    if rows.len() == 0 {
        Seq::empty()
    } else {
        let init = boxed_in_rows(rows.drop_last(), width);
        if is_boxed(rows.last()) {
            init + boxed_line(rows.last(), width)
        } else {
            init
        }
    }
}

pub open spec fn boxed_lines(sections: Seq<Section>, width: nat) -> Seq<char>
    decreases sections.len(),
{
    if sections.len() == 0 {
        Seq::empty()
    } else {
        boxed_lines(sections.drop_last(), width) + match sections.last().rows {
            Rows::Sites(rows) => boxed_in_rows(rows@, width),
            Rows::Functions(_) => Seq::empty(),
        }
    }
}

/// What is said above the sites that boxed.
pub open spec fn boxed_title() -> Seq<char> {
    "Boxed: scalars through a Dynamic parameter or result, an allocation each; a type in the member's #export keeps them out of the box\n"@
}

/// The report as text: the sections in order, then every site that boxed, then
/// the callbacks if there were any.
pub open spec fn report_text(r: Report) -> Seq<char> {
    let width = name_width(r.sections@);
    let boxed = boxed_lines(r.sections@, width);
    sections_text(r.sections@, width) + (if boxed.len() > 0 {
        boxed_title() + boxed + "\n"@
    } else {
        Seq::empty()
    }) + (if r.callbacks.typed > 0 || r.callbacks.boxed > 0 {
        "Callbacks: "@ + decimal(r.callbacks.typed as nat) + " typed, "@ + decimal(
            r.callbacks.boxed as nat,
        ) + " boxed\n"@
    } else {
        Seq::empty()
    })
}

fn longest<T: Named>(rows: &Vec<T>, least: usize) -> (w: usize)
    ensures
        w == widest(rows@, least as nat),
{
    let mut w: usize = least;
    let mut i: usize = 0;
    assert(rows@.take(0) =~= Seq::<T>::empty());
    while i < rows.len()
        invariant
            i <= rows.len(),
            w == widest(rows@.take(i as int), least as nat),
        decreases rows.len() - i,
    {
        assert(rows@.take(i + 1).drop_last() =~= rows@.take(i as int));
        let n: usize = rows[i].name().as_bytes().len();
        if n > w {
            w = n;
        }
        i = i + 1;
    }
    assert(rows@.take(i as int) =~= rows@);
    w
}

fn add_function(out: &mut String, f: &Function, width: usize)
    ensures
        final(out)@ == old(out)@ + function_line(*f, width as nat),
{
    out.append("  ");
    add_padded(out, f.name.as_str(), width);
    out.append("  ");
    add_padded(out, f.tier.label(), 11);
    if let Some(n) = f.entries {
        out.append("  ");
        out.append(decimal_text(n).as_str());
    }
    out.append("\n");
    assert(out@ =~= old(out)@ + function_line(*f, width as nat));
}

fn add_site(out: &mut String, s: &Site, width: usize)
    ensures
        final(out)@ == old(out)@ + site_line(*s, width as nat),
{
    out.append("  ");
    add_padded(out, s.name.as_str(), width);
    out.append("  ");
    if s.direct {
        add_padded(out, "direct", 11);
    } else {
        add_padded(out, "plain", 11);
    }
    if s.plain > 0 {
        out.append("  ");
        out.append(decimal_text(s.plain as u64).as_str());
        out.append(" plain");
    }
    out.append("\n");
    assert(out@ =~= old(out)@ + site_line(*s, width as nat));
}

fn add_boxed(out: &mut String, s: &Site, width: usize)
    ensures
        final(out)@ == old(out)@ + boxed_line(*s, width as nat),
{
    out.append("  ");
    add_padded(out, s.name.as_str(), width);
    if s.boxed_in > 0 {
        out.append("  ");
        out.append(decimal_text(s.boxed_in as u64).as_str());
        out.append(" in");
    }
    if s.boxed_out > 0 {
        out.append("  ");
        out.append(decimal_text(s.boxed_out as u64).as_str());
        out.append(" out");
    }
    out.append("\n");
    assert(out@ =~= old(out)@ + boxed_line(*s, width as nat));
}

fn add_functions(out: &mut String, rows: &Vec<Function>, width: usize)
    ensures
        final(out)@ == old(out)@ + function_lines(rows@, width as nat),
{
    let mut i: usize = 0;
    assert(rows@.take(0) =~= Seq::<Function>::empty());
    assert(out@ =~= old(out)@ + function_lines(rows@.take(0), width as nat));
    while i < rows.len()
        invariant
            i <= rows.len(),
            out@ == old(out)@ + function_lines(rows@.take(i as int), width as nat),
        decreases rows.len() - i,
    {
        assert(rows@.take(i + 1).drop_last() =~= rows@.take(i as int));
        add_function(out, &rows[i], width);
        assert(out@ =~= old(out)@ + function_lines(rows@.take(i + 1), width as nat));
        i = i + 1;
    }
    assert(rows@.take(i as int) =~= rows@);
}

fn add_sites(out: &mut String, rows: &Vec<Site>, width: usize)
    ensures
        final(out)@ == old(out)@ + site_lines(rows@, width as nat),
{
    let mut i: usize = 0;
    assert(rows@.take(0) =~= Seq::<Site>::empty());
    assert(out@ =~= old(out)@ + site_lines(rows@.take(0), width as nat));
    while i < rows.len()
        invariant
            i <= rows.len(),
            out@ == old(out)@ + site_lines(rows@.take(i as int), width as nat),
        decreases rows.len() - i,
    {
        assert(rows@.take(i + 1).drop_last() =~= rows@.take(i as int));
        add_site(out, &rows[i], width);
        assert(out@ =~= old(out)@ + site_lines(rows@.take(i + 1), width as nat));
        i = i + 1;
    }
    assert(rows@.take(i as int) =~= rows@);
}

fn add_boxed_rows(out: &mut String, rows: &Vec<Site>, width: usize)
    ensures
        final(out)@ == old(out)@ + boxed_in_rows(rows@, width as nat),
{
    let mut i: usize = 0;
    assert(rows@.take(0) =~= Seq::<Site>::empty());
    assert(out@ =~= old(out)@ + boxed_in_rows(rows@.take(0), width as nat));
    while i < rows.len()
        invariant
            i <= rows.len(),
            out@ == old(out)@ + boxed_in_rows(rows@.take(i as int), width as nat),
        decreases rows.len() - i,
    {
        assert(rows@.take(i + 1).drop_last() =~= rows@.take(i as int));
        if rows[i].boxed_in > 0 || rows[i].boxed_out > 0 {
            add_boxed(out, &rows[i], width);
        }
        assert(out@ =~= old(out)@ + boxed_in_rows(rows@.take(i + 1), width as nat));
        i = i + 1;
    }
    assert(rows@.take(i as int) =~= rows@);
}

impl Report {
    pub fn new() -> (r: Report)
        ensures
            r.sections@ == Seq::<Section>::empty(),
            r.callbacks == (Callbacks { typed: 0, boxed: 0 }),
    {
        Report { sections: Vec::new(), callbacks: Callbacks { typed: 0, boxed: 0 } }
    }

    /// Add a section of functions, by name.
    pub fn functions(&mut self, title: &str, rows: Vec<Function>)
        ensures
            final(self).callbacks == old(self).callbacks,
            final(self).sections@.len() == old(self).sections@.len() + 1,
            final(self).sections@.drop_last() == old(self).sections@,
            final(self).sections@.last().title@ == title@,
            final(self).sections@.last().rows matches Rows::Functions(list) && list@ == by_name(
                rows@,
            ),
    {
        let list: Vec<Function> = sort_rows(rows);
        self.sections.push(Section { title: title.to_owned(), rows: Rows::Functions(list) });
        assert(self.sections@.drop_last() =~= old(self).sections@);
    }

    /// Add a section of sites, by name.
    pub fn sites(&mut self, title: &str, rows: Vec<Site>)
        ensures
            final(self).callbacks == old(self).callbacks,
            final(self).sections@.len() == old(self).sections@.len() + 1,
            final(self).sections@.drop_last() == old(self).sections@,
            final(self).sections@.last().title@ == title@,
            final(self).sections@.last().rows matches Rows::Sites(list) && list@ == by_name(rows@),
    {
        let list: Vec<Site> = sort_rows(rows);
        self.sections.push(Section { title: title.to_owned(), rows: Rows::Sites(list) });
        assert(self.sections@.drop_last() =~= old(self).sections@);
    }

    fn width(&self) -> (w: usize)
        ensures
            w == name_width(self.sections@),
    {
        let mut w: usize = 24;
        let mut i: usize = 0;
        assert(self.sections@.take(0) =~= Seq::<Section>::empty());
        while i < self.sections.len()
            invariant
                i <= self.sections.len(),
                w == name_width(self.sections@.take(i as int)),
            decreases self.sections.len() - i,
        {
            assert(self.sections@.take(i + 1).drop_last() =~= self.sections@.take(i as int));
            w = match &self.sections[i].rows {
                Rows::Functions(rows) => longest(rows, w),
                Rows::Sites(rows) => longest(rows, w),
            };
            i = i + 1;
        }
        assert(self.sections@.take(i as int) =~= self.sections@);
        w
    }

    fn add_sections(&self, out: &mut String, width: usize)
        ensures
            final(out)@ == old(out)@ + sections_text(self.sections@, width as nat),
    {
        let mut i: usize = 0;
        assert(self.sections@.take(0) =~= Seq::<Section>::empty());
        assert(out@ =~= old(out)@ + sections_text(self.sections@.take(0), width as nat));
        while i < self.sections.len()
            invariant
                i <= self.sections.len(),
                out@ == old(out)@ + sections_text(self.sections@.take(i as int), width as nat),
            decreases self.sections.len() - i,
        {
            assert(self.sections@.take(i + 1).drop_last() =~= self.sections@.take(i as int));
            out.append(self.sections[i].title.as_str());
            out.append("\n");
            let ghost head = out@;
            match &self.sections[i].rows {
                Rows::Functions(rows) => {
                    if rows.len() == 0 {
                        out.append("  (none)\n");
                    } else {
                        add_functions(out, rows, width);
                    }
                },
                Rows::Sites(rows) => {
                    if rows.len() == 0 {
                        out.append("  (none)\n");
                    } else {
                        add_sites(out, rows, width);
                    }
                },
            }
            assert(out@ =~= head + rows_text(self.sections@[i as int].rows, width as nat));
            out.append("\n");
            assert(out@ =~= old(out)@ + sections_text(self.sections@.take(i + 1), width as nat));
            i = i + 1;
        }
        assert(self.sections@.take(i as int) =~= self.sections@);
    }

    fn boxed(&self, width: usize) -> (out: String)
        ensures
            out@ == boxed_lines(self.sections@, width as nat),
    {
        let mut out = String::new();
        let mut i: usize = 0;
        assert(self.sections@.take(0) =~= Seq::<Section>::empty());
        assert(out@ =~= Seq::<char>::empty());
        while i < self.sections.len()
            invariant
                i <= self.sections.len(),
                out@ == boxed_lines(self.sections@.take(i as int), width as nat),
            decreases self.sections.len() - i,
        {
            assert(self.sections@.take(i + 1).drop_last() =~= self.sections@.take(i as int));
            match &self.sections[i].rows {
                Rows::Sites(rows) => {
                    add_boxed_rows(&mut out, rows, width);
                },
                Rows::Functions(_) => {
                    assert(out@ + Seq::<char>::empty() =~= out@);
                },
            }
            i = i + 1;
        }
        assert(self.sections@.take(i as int) =~= self.sections@);
        out
    }

    /// The report as text.
    pub fn render(&self) -> (out: String)
        ensures
            out@ == report_text(*self),
    {
        let width: usize = self.width();
        let mut out = String::new();
        self.add_sections(&mut out, width);
        assert(out@ =~= sections_text(self.sections@, width as nat));
        let boxed = self.boxed(width);
        let ghost head = out@;
        if !boxed.as_str().is_empty() {
            out.append(
                "Boxed: scalars through a Dynamic parameter or result, an allocation each; a type in the member's #export keeps them out of the box\n",
            );
            out.append(boxed.as_str());
            out.append("\n");
        }
        let ghost middle = out@;
        assert(middle =~= head + if boxed@.len() > 0 {
            boxed_title() + boxed@ + "\n"@
        } else {
            Seq::empty()
        });
        if self.callbacks.typed > 0 || self.callbacks.boxed > 0 {
            out.append("Callbacks: ");
            out.append(decimal_text(self.callbacks.typed).as_str());
            out.append(" typed, ");
            out.append(decimal_text(self.callbacks.boxed).as_str());
            out.append(" boxed\n");
        }
        assert(out@ =~= report_text(*self));
        out
    }
}

// The order of rows.

proof fn lemma_precedes_total(a: Seq<char>, b: Seq<char>)
    ensures
        precedes(a, b) ==> !precedes(b, a),
        precedes(a, b) || precedes(b, a) || a == b,
    decreases a.len(),
{
    if a.len() > 0 && b.len() > 0 && a[0] == b[0] {
        lemma_precedes_total(a.drop_first(), b.drop_first());
        if a.drop_first() == b.drop_first() {
            assert(a =~= seq![a[0]] + a.drop_first());
            assert(b =~= seq![b[0]] + b.drop_first());
        }
    } else if a.len() == 0 && b.len() == 0 {
        assert(a =~= b);
    }
}

proof fn lemma_precedes_chain(a: Seq<char>, b: Seq<char>, c: Seq<char>)
    requires
        precedes(a, b),
        !precedes(c, b),
    ensures
        !precedes(c, a),
    decreases a.len(),
{
    if a.len() > 0 && b.len() > 0 && c.len() > 0 && a[0] == b[0] && b[0] == c[0] {
        lemma_precedes_chain(a.drop_first(), b.drop_first(), c.drop_first());
    }
}

/// Rows in order of their names.
pub open spec fn ordered<T: Named>(rows: Seq<T>) -> bool {
    forall|i: int, j: int|
        #![trigger rows[i], rows[j]]
        0 <= i < j < rows.len() ==> !precedes(rows[j].named(), rows[i].named())
}

proof fn lemma_rank_bounds<T: Named>(list: Seq<T>, name: Seq<char>)
    ensures
        0 <= rank(list, name) <= list.len(),
        forall|k: int|
            0 <= k < rank(list, name) ==> precedes((#[trigger] list[k]).named(), name),
        rank(list, name) < list.len() ==> !precedes(list[rank(list, name)].named(), name),
    decreases list.len(),
{
    if list.len() > 0 && precedes(list[0].named(), name) {
        let rest = list.drop_first();
        lemma_rank_bounds(rest, name);
        assert forall|k: int| 0 <= k < rank(list, name) implies precedes(
            (#[trigger] list[k]).named(),
            name,
        ) by {
            if k > 0 {
                assert(rest[k - 1] == list[k]);
            }
        }
    }
}

/// A section's rows are those that were given, in order of their names.
pub proof fn law_rows_are_sorted<T: Named>(rows: Seq<T>)
    ensures
        ordered(by_name(rows)),
        by_name(rows).to_multiset() == rows.to_multiset(),
    decreases rows.len(),
{
    if rows.len() > 0 {
        let tail = rows.drop_first();
        let rest = by_name(tail);
        let x = rows[0];
        law_rows_are_sorted(tail);
        lemma_rank_bounds(rest, x.named());
        let r = rank(rest, x.named());
        let out = rest.insert(r, x);
        assert forall|i: int, j: int|
            #![trigger out[i], out[j]]
            0 <= i < j < out.len() implies !precedes(out[j].named(), out[i].named()) by {
            let oi = if i < r { i } else { i - 1 };
            let oj = if j < r { j } else { j - 1 };
            if i == r {
                assert(out[j] == rest[oj]);
                if oj == r {
                } else {
                    assert(rest[r] == rest[r]);
                    assert(!precedes(rest[oj].named(), rest[r].named()));
                    if precedes(rest[oj].named(), x.named()) {
                        lemma_precedes_total(rest[r].named(), x.named());
                        if rest[r].named() == x.named() {
                        } else {
                            assert(precedes(x.named(), rest[r].named()));
                            lemma_precedes_chain(x.named(), rest[r].named(), rest[oj].named());
                        }
                    }
                }
            } else if j == r {
                assert(out[i] == rest[oi]);
                lemma_precedes_total(rest[oi].named(), x.named());
            } else {
                assert(out[i] == rest[oi] && out[j] == rest[oj]);
            }
        }
        vstd::seq_lib::to_multiset_insert(rest, r, x);
        assert(rows =~= tail.insert(0, x));
        vstd::seq_lib::to_multiset_insert(tail, 0, x);
    }
}

} // verus!
