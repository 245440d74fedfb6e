//! Whether a diagnostic can be drawn, as a test.

use vstd::prelude::*;
use vstd::utf8::{char_is_scalar, encode_scalar, encode_utf8, is_char_boundary};

use crate::diag::draw::{
    begins_section, continues, counted_fits, drawable, ends_line, in_text, label_fits, last_byte,
    one_line, page, page_fits, page_text_of, pair_views, Drawn, Page, SourceLookup,
};
use crate::diag::Diagnostic;
use crate::text::{cat, chars_of, same_text};
use crate::world::Languages;

verus! {

/// Where character `c` of `text` begins, in bytes.
pub open spec fn byte_of(text: Seq<char>, c: int) -> nat {
    encode_utf8(text.take(c)).len()
}

/// The bytes of two texts are those of the one, then those of the other.
proof fn lemma_joined(a: Seq<char>, b: Seq<char>)
    ensures
        encode_utf8(a + b) == encode_utf8(a) + encode_utf8(b),
    decreases a.len(),
{
    if a.len() == 0 {
        assert(a + b =~= b);
        assert(encode_utf8(a) + encode_utf8(b) =~= encode_utf8(b));
    } else {
        lemma_joined(a.drop_first(), b);
        assert((a + b).drop_first() =~= a.drop_first() + b);
        assert(encode_utf8(a + b) =~= encode_scalar(a[0] as u32) + (encode_utf8(a.drop_first())
            + encode_utf8(b)));
        assert(encode_utf8(a) + encode_utf8(b) =~= encode_scalar(a[0] as u32) + (encode_utf8(
            a.drop_first(),
        ) + encode_utf8(b)));
    }
}

/// A character begins where the one before it ends, inside the text.
proof fn lemma_byte_of(text: Seq<char>, c: int)
    requires
        0 <= c < text.len(),
    ensures
        byte_of(text, c + 1) == byte_of(text, c) + encode_scalar(text[c] as u32).len(),
        byte_of(text, c + 1) <= encode_utf8(text).len(),
        1 <= encode_scalar(text[c] as u32).len() <= 4,
{
    let one = seq![text[c]];
    assert(text.take(c + 1) =~= text.take(c) + one);
    lemma_joined(text.take(c), one);
    assert(one.drop_first() =~= Seq::<char>::empty());
    assert(encode_utf8(one.drop_first()) =~= Seq::<u8>::empty());
    assert(one[0] == text[c]);
    assert(encode_utf8(one) =~= encode_scalar(text[c] as u32));
    assert(text =~= text.take(c + 1) + text.skip(c + 1));
    lemma_joined(text.take(c + 1), text.skip(c + 1));
}

/// Where each character of `text` begins, in bytes, and the end.
fn starts_of(text: &str) -> (r: Vec<usize>)
    ensures
        r@.len() == text@.len() + 1,
        forall|c: int| 0 <= c <= text@.len() ==> #[trigger] r@[c] == byte_of(text@, c),
{
    let chars: Vec<char> = chars_of(text);
    let n: usize = text.as_bytes().len();
    let mut r: Vec<usize> = Vec::new();
    let mut at: usize = 0;
    let mut i: usize = 0;
    assert(text@.take(0) =~= Seq::<char>::empty());
    r.push(0);
    while i < chars.len()
        invariant
            i <= chars.len(),
            chars@ == text@,
            n == encode_utf8(text@).len(),
            at == byte_of(text@, i as int),
            r@.len() == i + 1,
            forall|c: int| 0 <= c <= i ==> #[trigger] r@[c] == byte_of(text@, c),
        decreases chars.len() - i,
    {
        proof {
            lemma_byte_of(text@, i as int);
            char_is_scalar(text@[i as int]);
        }
        let c: u32 = chars[i] as u32;
        let width: usize = if c < 0x80 {
            1
        } else if c < 0x800 {
            2
        } else if c < 0x10000 {
            3
        } else {
            4
        };
        assert(width == encode_scalar(c).len());
        at = at + width;
        r.push(at);
        i = i + 1;
    }
    r
}

/// [`counted_fits`].
fn counted(text: &str, start: usize) -> (r: bool)
    ensures
        r == counted_fits(text@, start),
{
    let starts: Vec<usize> = starts_of(text);
    let mut c: usize = 0;
    while c < starts.len()
        invariant
            c <= starts.len(),
            starts@.len() == text@.len() + 1,
            forall|k: int| 0 <= k <= text@.len() ==> #[trigger] starts@[k] == byte_of(text@, k),
            forall|k: int|
                0 <= k < c ==> !(#[trigger] encode_utf8(text@.take(k)).len() == start
                    && is_char_boundary(encode_utf8(text@), k)),
        decreases starts.len() - c,
    {
        if starts[c] == start && text.is_char_boundary(c) {
            assert(encode_utf8(text@.take(c as int)).len() == start);
            return true;
        }
        assert(starts@[c as int] == byte_of(text@, c as int));
        c = c + 1;
    }
    false
}

/// [`label_fits`].
fn label_test(text: &str, start: usize, end: usize, counts: bool) -> (r: bool)
    ensures
        r == label_fits(text@, start, end, counts),
{
    let n: usize = text.as_bytes().len();
    if start > end {
        return false;
    }
    if start > n {
        return true;
    }
    if !text.is_char_boundary(start) {
        return false;
    }
    let ends: bool = start == end || end - 1 > n || (end <= n && text.is_char_boundary(end));
    ends && (!counts || counted(text, start))
}

/// The text a page has of a source: see [`page_text_of`].
fn text_at<'a>(texts: &'a Vec<(String, String)>, id: &str) -> (r: Option<&'a String>)
    ensures
        match page_text_of(pair_views(texts@), id@) {
            Some(t) => r matches Some(s) && s@ == t,
            None => r is None,
        },
{
    let ghost all = pair_views(texts@);
    let mut i: usize = texts.len();
    assert(all.take(i as int) =~= all);
    while i > 0
        invariant
            i <= texts.len(),
            all == pair_views(texts@),
            page_text_of(all, id@) == page_text_of(all.take(i as int), id@),
        decreases i,
    {
        i = i - 1;
        assert(all.take(i + 1).drop_last() =~= all.take(i as int));
        assert(all.take(i + 1).last() == all[i as int]);
        if same_text(texts[i].0.as_str(), id) {
            return Some(&texts[i].1);
        }
    }
    None
}

/// [`ends_line`].
fn line_end(c: char) -> (r: bool)
    ensures
        r == ends_line(c),
{
    let n: u32 = c as u32;
    (0xA <= n && n <= 0xD) || n == 0x85 || n == 0x2028 || n == 0x2029
}

/// [`one_line`].
fn on_one_line(text: &str, from: usize, to: usize) -> (r: bool)
    ensures
        r == one_line(text@, from as int, to as int),
{
    let chars: Vec<char> = chars_of(text);
    let starts: Vec<usize> = starts_of(text);
    let mut c: usize = 0;
    while c < chars.len()
        invariant
            c <= chars.len(),
            chars@ == text@,
            starts@.len() == text@.len() + 1,
            forall|k: int| 0 <= k <= text@.len() ==> #[trigger] starts@[k] == byte_of(text@, k),
            forall|k: int|
                0 <= k < c && encode_utf8(text@.take(k + 1)).len() > from && encode_utf8(
                    text@.take(k),
                ).len() < to ==> !ends_line(#[trigger] text@[k]),
        decreases chars.len() - c,
    {
        assert(starts@[c as int] == byte_of(text@, c as int));
        assert(starts@[c + 1] == byte_of(text@, c + 1));
        if starts[c + 1] > from && starts[c] < to && line_end(chars[c]) {
            assert(ends_line(text@[c as int]));
            return false;
        }
        c = c + 1;
    }
    true
}

/// [`in_text`].
fn inside(text: &str, l: &Drawn) -> (r: bool)
    ensures
        r == in_text(text@, l@),
{
    let n: usize = text.as_bytes().len();
    l.start <= n && (l.start == l.end || l.end <= n)
}

/// [`last_byte`].
fn final_byte(l: &Drawn) -> (r: usize)
    ensures
        r == last_byte(l@),
{
    if l.start < l.end {
        l.end - 1
    } else {
        l.start
    }
}

/// [`continues`].
fn goes_on(page: &Page, text: &str, j: usize, i: usize) -> (r: bool)
    requires
        j < i < page.labels@.len(),
    ensures
        r == continues(page@, text@, j as int, i as int),
{
    let a: &Drawn = &page.labels[j];
    let l: &Drawn = &page.labels[i];
    assert(page@.labels[j as int] == a@ && page@.labels[i as int] == l@);
    if !same_text(a.source.as_str(), l.source.as_str()) || !inside(text, a) {
        return false;
    }
    let first: usize = final_byte(a);
    let second: usize = final_byte(l);
    if first > second && !on_one_line(text, second, first) {
        return false;
    }
    let mut k: usize = j + 1;
    while k < i
        invariant
            j < k <= i < page.labels@.len(),
            forall|m: int|
                j < m < k ==> (page_text_of(
                    page@.texts,
                    (#[trigger] page@.labels[m]).source,
                ) matches Some(t) && !in_text(t, page@.labels[m])),
        decreases i - k,
    {
        let between: &Drawn = &page.labels[k];
        assert(page@.labels[k as int] == between@);
        let left_out: bool = match text_at(&page.texts, between.source.as_str()) {
            Some(t) => !inside(t.as_str(), between),
            None => false,
        };
        if !left_out {
            return false;
        }
        k = k + 1;
    }
    true
}

/// [`begins_section`].
fn begins(page: &Page, text: &str, i: usize) -> (r: bool)
    requires
        i < page.labels@.len(),
    ensures
        r == begins_section(page@, text@, i as int),
{
    let mut k: usize = 0;
    while k < page.labels.len()
        invariant
            k <= page.labels@.len(),
            forall|m: int| 0 <= m < k ==> (#[trigger] page@.labels[m]).order == m,
        decreases page.labels.len() - k,
    {
        assert(page@.labels[k as int] == page.labels@[k as int]@);
        let order: i32 = page.labels[k].order;
        if order < 0 || order as usize != k {
            assert(page@.labels[k as int].order != k);
            return true;
        }
        k = k + 1;
    }
    let mut j: usize = 0;
    while j < i
        invariant
            j <= i < page.labels@.len(),
            forall|m: int| 0 <= m < page.labels@.len() ==> (#[trigger] page@.labels[m]).order == m,
            forall|m: int| 0 <= m < j ==> !#[trigger] continues(page@, text@, m, i as int),
        decreases i - j,
    {
        if goes_on(page, text, j, i) {
            return false;
        }
        j = j + 1;
    }
    true
}

/// [`page_fits`].
fn page_test(page: &Page) -> (r: bool)
    ensures
        r == page_fits(page@),
{
    match text_at(&page.texts, page.at.as_str()) {
        Some(t) => {
            let n: usize = t.as_str().as_bytes().len();
            if page.from <= n && !t.as_str().is_char_boundary(page.from) {
                return false;
            }
        },
        None => {},
    }
    let mut i: usize = 0;
    while i < page.labels.len()
        invariant
            i <= page.labels@.len(),
            page_text_of(page@.texts, page@.at) matches Some(t) ==> page@.from > encode_utf8(
                t,
            ).len() || is_char_boundary(encode_utf8(t), page@.from as int),
            forall|k: int|
                0 <= k < i ==> {
                    let l = #[trigger] page@.labels[k];
                    page_text_of(page@.texts, l.source) matches Some(t) && t.len() < 1000000000
                        && label_fits(
                        t,
                        l.start,
                        l.end,
                        l.source != page@.at && begins_section(page@, t, k),
                    )
                },
        decreases page.labels.len() - i,
    {
        let l: &Drawn = &page.labels[i];
        assert(page@.labels[i as int] == l@);
        let fits: bool = match text_at(&page.texts, l.source.as_str()) {
            Some(t) => {
                let text: &str = t.as_str();
                let counts: bool = !same_text(l.source.as_str(), page.at.as_str()) && begins(
                    page,
                    text,
                    i,
                );
                chars_of(text).len() < 1000000000 && label_test(text, l.start, l.end, counts)
            },
            None => false,
        };
        if !fits {
            return false;
        }
        i = i + 1;
    }
    true
}

/// Whether a diagnostic and its causes can be drawn.
pub fn can_draw<S: SourceLookup>(d: &Diagnostic, langs: &Languages, found: &S) -> (r: bool)
    ensures
        r == drawable(d@, langs@, |id: Seq<char>| found.text(id), true),
{
    test_from(d, langs, found, true)
}

fn test_from<S: SourceLookup>(d: &Diagnostic, langs: &Languages, found: &S, first: bool) -> (r:
    bool)
    ensures
        r == drawable(d@, langs@, |id: Seq<char>| found.text(id), first),
    decreases d,
{
    let message: String = if first {
        d.message.clone()
    } else {
        cat("caused by: ", d.message.as_str())
    };
    let p: Page = page(d, message, langs, found);
    if !page_test(&p) {
        return false;
    }
    match &d.cause {
        Some(c) => test_from(c, langs, found, false),
        None => true,
    }
}

} // verus!
