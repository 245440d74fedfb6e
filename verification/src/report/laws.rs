//! What holds of a report's order and of its lines.

use vstd::prelude::*;
use vstd::string::*;
use vstd::utf8::encode_utf8;

use crate::report::{
    boxed_in_rows, boxed_line, boxed_lines, boxed_title, function_line, function_lines,
    name_width, padded, precedes, report_text, rows_text, sections_text, site_line, site_lines,
    spaces, widest, Function, Named, Report, Rows, Section, Site, Tier,
};
use crate::text::decimal;

verus! {

/// Names go by their first difference; a name goes before those that it begins.
pub proof fn law_names_go_by_their_first_difference(
    common: Seq<char>,
    a: char,
    b: char,
    x: Seq<char>,
    y: Seq<char>,
)
    ensures
        a < b ==> precedes(common + seq![a] + x, common + seq![b] + y),
        a > b ==> !precedes(common + seq![a] + x, common + seq![b] + y),
        precedes(common, common + seq![b] + y),
        !precedes(common, common),
        !precedes(common + seq![a] + x, common),
    decreases common.len(),
{
    let p = common + seq![a] + x;
    let q = common + seq![b] + y;
    if common.len() == 0 {
        assert(p[0] == a);
        assert(q[0] == b);
    } else {
        let rest = common.drop_first();
        law_names_go_by_their_first_difference(rest, a, b, x, y);
        assert(p.drop_first() =~= rest + seq![a] + x);
        assert(q.drop_first() =~= rest + seq![b] + y);
        assert(p[0] == common[0] && q[0] == common[0]);
    }
}

/// A column is as wide as it is asked to be, or as its text: the text first, blanks
/// after it.
pub proof fn law_columns_are_padded(s: Seq<char>, width: int, k: int)
    ensures
        padded(s, width).take(s.len() as int) =~= s,
        s.len() <= width ==> padded(s, width).len() == width,
        s.len() > width ==> padded(s, width) =~= s,
        s.len() <= k < width ==> padded(s, width)[k] == ' ',
{
    lemma_spaces(width - s.len());
}

proof fn lemma_spaces(n: int)
    ensures
        spaces(n).len() == if n <= 0 {
            0
        } else {
            n
        },
        forall|k: int| 0 <= k < n ==> #[trigger] spaces(n)[k] == ' ',
    decreases n,
{
    if n > 0 {
        lemma_spaces(n - 1);
    }
}

/// A column is as wide as its widest name, and no narrower than it was.
pub proof fn law_the_widest_name<T: Named>(list: Seq<T>, least: nat, k: int)
    ensures
        widest(list, least) >= least,
        0 <= k < list.len() ==> widest(list, least) >= encode_utf8(list[k].named()).len(),
        widest(list, least) == least || exists|j: int|
            0 <= j < list.len() && widest(list, least) == encode_utf8(
                (#[trigger] list[j]).named(),
            ).len(),
    decreases list.len(),
{
    if list.len() > 0 {
        let front = list.drop_last();
        law_the_widest_name(front, least, k);
        if 0 <= k < front.len() {
            assert(front[k] == list[k]);
        }
        let last = list[list.len() - 1];
        if widest(list, least) != least && widest(list, least) != encode_utf8(last.named()).len() {
            let j = choose|j: int|
                0 <= j < front.len() && widest(front, least) == encode_utf8(
                    (#[trigger] front[j]).named(),
                ).len();
            assert(list[j] == front[j]);
        }
    }
}

/// The column of names is at least twenty-four wide, and as wide as any name of any
/// section.
pub proof fn law_the_name_column(sections: Seq<Section>, i: int, k: int)
    ensures
        name_width(sections) >= 24,
        sections.len() == 0 ==> name_width(sections) == 24,
        0 <= i < sections.len() ==> match sections[i].rows {
            Rows::Functions(rows) => 0 <= k < rows@.len() ==> name_width(sections) >= encode_utf8(
                rows@[k].name@,
            ).len(),
            Rows::Sites(rows) => 0 <= k < rows@.len() ==> name_width(sections) >= encode_utf8(
                rows@[k].name@,
            ).len(),
        },
    decreases sections.len(),
{
    if sections.len() > 0 {
        let front = sections.drop_last();
        law_the_name_column(front, i, k);
        if 0 <= i < front.len() {
            assert(front[i] == sections[i]);
        }
        match sections.last().rows {
            Rows::Functions(rows) => {
                law_the_widest_name(rows@, name_width(front), k);
            },
            Rows::Sites(rows) => {
                law_the_widest_name(rows@, name_width(front), k);
            },
        }
    }
}

/// How a function runs is told in a word of its own.
pub proof fn law_tiers_are_told(t: Tier)
    ensures
        t.words()[0] == 'i' <==> t is Interpreted,
        t.words()[0] == 'b' <==> t is Baseline,
        t.words()[0] == 'o' <==> t is Optimized,
        t.words().len() <= 11,
{
    reveal_strlit("interpreted");
    reveal_strlit("baseline");
    reveal_strlit("optimized");
}

/// A function's line holds its name, how it runs, and how often it was entered if that
/// was counted.
pub proof fn law_a_function_is_a_line(f: Function, width: nat)
    requires
        f.name@.len() <= width,
    ensures
        ({
            let line = function_line(f, width);
            let w = width as int;
            &&& line.take(2) =~= "  "@
            &&& line.subrange(2, 2 + w) =~= padded(f.name@, w)
            &&& line.subrange(2 + w, 4 + w) =~= "  "@
            &&& line.subrange(4 + w, 15 + w) =~= padded(f.tier.words(), 11)
            &&& f.entries matches Some(n) ==> line.skip(15 + w) =~= "  "@ + decimal(n as nat)
                + "\n"@
            &&& f.entries is None ==> line.skip(15 + w) =~= "\n"@
        }),
{
    reveal_strlit("  ");
    law_columns_are_padded(f.name@, width as int, 0);
    law_tiers_are_told(f.tier);
    law_columns_are_padded(f.tier.words(), 11, 0);
}

/// A site's line holds its name, whether it goes directly, and how many plain values
/// it passes if it passes any.
pub proof fn law_a_site_is_a_line(s: Site, width: nat)
    requires
        s.name@.len() <= width,
    ensures
        ({
            let line = site_line(s, width);
            let w = width as int;
            &&& line.take(2) =~= "  "@
            &&& line.subrange(2, 2 + w) =~= padded(s.name@, w)
            &&& line.subrange(2 + w, 4 + w) =~= "  "@
            &&& s.direct ==> line.subrange(4 + w, 15 + w) =~= padded("direct"@, 11)
            &&& !s.direct ==> line.subrange(4 + w, 15 + w) =~= padded("plain"@, 11)
            &&& s.plain > 0 ==> line.skip(15 + w) =~= "  "@ + decimal(s.plain as nat) + " plain"@
                + "\n"@
            &&& s.plain == 0 ==> line.skip(15 + w) =~= "\n"@
        }),
{
    reveal_strlit("  ");
    reveal_strlit("direct");
    reveal_strlit("plain");
    law_columns_are_padded(s.name@, width as int, 0);
    law_columns_are_padded("direct"@, 11, 0);
    law_columns_are_padded("plain"@, 11, 0);
}

/// A site that boxes is told with how much it boxes in and out; one that does not, is
/// not.
pub proof fn law_a_boxing_site_is_a_line(s: Site, width: nat, rows: Seq<Site>)
    requires
        s.name@.len() <= width,
    ensures
        boxed_in_rows(rows.push(s), width) == if s.boxed_in > 0 || s.boxed_out > 0 {
            boxed_in_rows(rows, width) + boxed_line(s, width)
        } else {
            boxed_in_rows(rows, width)
        },
        ({
            let told = boxed_line(s, width).skip(2 + width as int);
            let ins = "  "@ + decimal(s.boxed_in as nat) + " in"@;
            let outs = "  "@ + decimal(s.boxed_out as nat) + " out"@;
            &&& boxed_line(s, width).subrange(2, 2 + width as int) =~= padded(s.name@, width as int)
            &&& s.boxed_in > 0 && s.boxed_out > 0 ==> told =~= ins + outs + "\n"@
            &&& s.boxed_in > 0 && s.boxed_out == 0 ==> told =~= ins + "\n"@
            &&& s.boxed_in == 0 && s.boxed_out > 0 ==> told =~= outs + "\n"@
        }),
{
    reveal_strlit("  ");
    assert(rows.push(s).drop_last() =~= rows);
    law_columns_are_padded(s.name@, width as int, 0);
}

/// Rows are told one after the other, in their order, and that there are none is told
/// too.
pub proof fn law_rows_are_told_in_order(
    a: Seq<Function>,
    f: Function,
    b: Seq<Site>,
    s: Site,
    rows: Rows,
    width: nat,
)
    ensures
        function_lines(a.push(f), width) == function_lines(a, width) + function_line(f, width),
        function_lines(Seq::empty(), width) == Seq::<char>::empty(),
        site_lines(b.push(s), width) == site_lines(b, width) + site_line(s, width),
        site_lines(Seq::empty(), width) == Seq::<char>::empty(),
        match rows {
            Rows::Functions(list) => rows_text(rows, width) == if list@.len() == 0 {
                "  (none)\n"@
            } else {
                function_lines(list@, width)
            },
            Rows::Sites(list) => rows_text(rows, width) == if list@.len() == 0 {
                "  (none)\n"@
            } else {
                site_lines(list@, width)
            },
        },
{
    assert(a.push(f).drop_last() =~= a);
    assert(b.push(s).drop_last() =~= b);
}

/// Sections are told one after the other, each under its title; only sites box.
pub proof fn law_sections_are_told_in_order(sections: Seq<Section>, s: Section, width: nat)
    ensures
        sections_text(sections.push(s), width) =~= sections_text(sections, width) + (s.title@ + "\n"@
            + rows_text(s.rows, width) + "\n"@),
        s.rows matches Rows::Sites(rows) ==> boxed_lines(sections.push(s), width) =~= boxed_lines(
            sections,
            width,
        ) + boxed_in_rows(rows@, width),
        s.rows is Functions ==> boxed_lines(sections.push(s), width) =~= boxed_lines(
            sections,
            width,
        ),
{
    assert(sections.push(s).drop_last() =~= sections);
}

/// A report tells its sections, what is boxed if anything is, and its callbacks if there
/// were any.
pub proof fn law_a_report_is_told(r: Report)
    ensures
        ({
            let width = name_width(r.sections@);
            let boxed = boxed_lines(r.sections@, width);
            let own = sections_text(r.sections@, width);
            let boxes = boxed_title() + boxed + "\n"@;
            let calls = "Callbacks: "@ + decimal(r.callbacks.typed as nat) + " typed, "@ + decimal(
                r.callbacks.boxed as nat,
            ) + " boxed\n"@;
            let called = r.callbacks.typed > 0 || r.callbacks.boxed > 0;
            &&& boxed.len() == 0 && !called ==> report_text(r) =~= own
            &&& boxed.len() > 0 && !called ==> report_text(r) =~= own + boxes
            &&& boxed.len() == 0 && called ==> report_text(r) =~= own + calls
            &&& boxed.len() > 0 && called ==> report_text(r) =~= own + boxes + calls
        }),
{
}

} // verus!
