//! What holds of the sizes the heap goes by, and of when it collects.

use vstd::prelude::*;
use vstd::string::*;

use crate::heap::collect::Collection;
use crate::heap::grant::TriggerContext;
use crate::heap::immix::{ImmixAllocator, Trigger};
use crate::heap::mutators::MutatorWorld;
use crate::heap::sizing::{
    along, cgroup_path, disabled_limit, first_word, heap_max_of, index_of, least_limit, lemma_index_of,
    limit_value, lines, segments, total_bytes, total_kb, word_front,
};
use crate::text::{
    all_digits, decimal, digit_char, digits_value, is_digit, number, trimmed, usize_value, white,
};

verus! {

// Texts.

/// A number that is written out reads back, with a plus sign or without.
pub proof fn law_a_number_reads_back(n: nat)
    ensures
        number(decimal(n)) == Some(n),
        number(seq!['+'] + decimal(n)) == Some(n),
{
    lemma_decimal_digits(n);
    assert((seq!['+'] + decimal(n)).drop_first() =~= decimal(n));
    assert(is_digit(decimal(n)[0]));
}

proof fn lemma_decimal_digits(n: nat)
    ensures
        decimal(n).len() > 0,
        all_digits(decimal(n)),
        digits_value(decimal(n)) == n,
    decreases n,
{
    reveal_with_fuel(digits_value, 2);
    if n < 10 {
        assert(decimal(n).drop_last() =~= Seq::<char>::empty());
    } else {
        lemma_decimal_digits(n / 10);
        let init = decimal(n / 10);
        let all = decimal(n);
        assert(all.drop_last() =~= init);
        assert forall|i: int| 0 <= i < all.len() implies is_digit(#[trigger] all[i]) by {
            if i < init.len() {
                assert(all[i] == init[i]);
            } else {
                assert(all[i] == digit_char((n % 10) as int));
            }
        }
    }
}

/// Trimming takes the white space off both ends and nothing else.
pub proof fn law_trimming_takes_the_ends(before: Seq<char>, s: Seq<char>, after: Seq<char>)
    requires
        forall|i: int| 0 <= i < before.len() ==> white(#[trigger] before[i]),
        forall|i: int| 0 <= i < after.len() ==> white(#[trigger] after[i]),
        s.len() > 0 ==> !white(s[0]) && !white(s.last()),
    ensures
        trimmed(before + s + after) == s,
    decreases before.len() + after.len(),
{
    let all = before + s + after;
    if before.len() > 0 {
        assert(all[0] == before[0]);
        assert(all.drop_first() =~= before.drop_first() + s + after);
        law_trimming_takes_the_ends(before.drop_first(), s, after);
    } else if after.len() > 0 {
        assert(all.last() == after.last());
        assert(all.drop_last() =~= before + s + after.drop_last());
        assert(white(after[after.len() - 1]));
        if s.len() == 0 {
            assert(all[0] == after[0]);
            assert(all.drop_first() =~= before + s + after.drop_first());
            law_trimming_takes_the_ends(before, s, after.drop_first());
        } else {
            assert(all[0] == s[0]);
            law_trimming_takes_the_ends(before, s, after.drop_last());
        }
    } else {
        assert(all =~= s);
    }
}

// The machine.

/// A limit is a number that is not zero and not the one that stands for none.
pub proof fn law_a_limit_is_a_number(before: Seq<char>, n: nat, after: Seq<char>)
    requires
        forall|i: int| 0 <= i < before.len() ==> white(#[trigger] before[i]),
        forall|i: int| 0 <= i < after.len() ==> white(#[trigger] after[i]),
        n <= usize::MAX,
    ensures
        limit_value(before + decimal(n) + after) == if 0 < n < 1152921504606846976 {
            Some(n as usize)
        } else {
            None
        },
{
    law_a_number_reads_back(n);
    lemma_decimal_digits(n);
    let d = decimal(n);
    assert(is_digit(d[0]) && is_digit(d[d.len() - 1]));
    law_trimming_takes_the_ends(before, d, after);
}

/// The smallest limit binds: no text gives a smaller one, and one of them gives it,
/// unless none gives any.
pub proof fn law_the_smallest_limit_binds(texts: Seq<String>)
    ensures
        forall|i: int|
            0 <= i < texts.len() ==> (limit_value((#[trigger] texts[i])@) matches Some(n)
                ==> least_limit(texts) <= n),
        least_limit(texts) != usize::MAX ==> exists|i: int|
            0 <= i < texts.len() && limit_value((#[trigger] texts[i])@) == Some(
                least_limit(texts),
            ),
    decreases texts.len(),
{
    if texts.len() > 0 {
        let front = texts.drop_last();
        law_the_smallest_limit_binds(front);
        assert forall|i: int| 0 <= i < texts.len() implies (limit_value(
            (#[trigger] texts[i])@,
        ) matches Some(n) ==> least_limit(texts) <= n) by {
            if i < front.len() {
                assert(front[i] == texts[i]);
            }
        }
        if least_limit(texts) != usize::MAX {
            if least_limit(texts) == least_limit(front) && least_limit(front) != usize::MAX {
                let i = choose|i: int|
                    0 <= i < front.len() && limit_value((#[trigger] front[i])@) == Some(
                        least_limit(front),
                    );
                assert(texts[i] == front[i]);
            } else {
                assert(texts[texts.len() - 1] == texts.last());
            }
        }
    }
}

/// The directories of a control group go from the root down, each one segment of
/// the path below the one before.
pub proof fn law_directories_go_down(root: Seq<char>, segs: Seq<Seq<char>>)
    ensures
        along(root, segs).len() == segs.len() + 1,
        along(root, segs)[0] == root,
        forall|i: int|
            0 <= i < segs.len() ==> along(root, segs)[i + 1] == along(root, segs)[i] + seq!['/']
                + #[trigger] segs[i],
    decreases segs.len(),
{
    if segs.len() > 0 {
        let next = root + seq!['/'] + segs[0];
        let rest = segs.skip(1);
        law_directories_go_down(next, rest);
        let all = along(root, segs);
        assert forall|i: int| 0 <= i < segs.len() implies all[i + 1] == all[i] + seq!['/']
            + #[trigger] segs[i] by {
            if i == 0 {
                assert(all[1] == along(next, rest)[0]);
            } else {
                assert(rest[i - 1] == segs[i]);
                assert(all[i + 1] == along(next, rest)[i]);
                assert(all[i] == along(next, rest)[i - 1]);
            }
        }
    }
}

/// The path of a control group is what stands behind the second colon.
pub proof fn law_the_path_is_behind_two_colons(a: Seq<char>, b: Seq<char>, path: Seq<char>)
    requires
        !a.contains(':'),
        !b.contains(':'),
    ensures
        cgroup_path(a + seq![':'] + b + seq![':'] + path) == Some(path),
        cgroup_path(a + seq![':'] + b) is None,
        cgroup_path(a) is None,
{
    let line = a + seq![':'] + b + seq![':'] + path;
    let rest = b + seq![':'] + path;
    assert(line =~= a + seq![':'] + rest);
    lemma_index_at(a, ':', rest);
    assert(line.skip(a.len() as int + 1) =~= rest);
    lemma_index_at(b, ':', path);
    assert(rest.skip(b.len() as int + 1) =~= path);
    lemma_index_at(a, ':', b);
    assert((a + seq![':'] + b).skip(a.len() as int + 1) =~= b);
    lemma_index_none(b, ':');
    lemma_index_none(a, ':');
}

proof fn lemma_index_at(a: Seq<char>, c: char, rest: Seq<char>)
    requires
        !a.contains(c),
    ensures
        index_of(a + seq![c] + rest, c) == a.len(),
{
    let all = a + seq![c] + rest;
    lemma_index_of(all, c);
    let n = index_of(all, c);
    assert(all[a.len() as int] == c);
    if n < a.len() {
        assert(a[n] == c);
    }
}

proof fn lemma_index_none(a: Seq<char>, c: char)
    requires
        !a.contains(c),
    ensures
        index_of(a, c) == a.len(),
{
    lemma_index_of(a, c);
    let n = index_of(a, c);
    if n < a.len() {
        assert(a[n] == c);
    }
}

/// A path is cut at its slashes, and empty segments are left out.
pub proof fn law_a_path_is_cut_at_slashes(seg: Seq<char>, rest: Seq<char>)
    requires
        !seg.contains('/'),
    ensures
        segments(seg + seq!['/'] + rest) == if seg.len() > 0 {
            seq![seg] + segments(rest)
        } else {
            segments(rest)
        },
        segments(seg) == if seg.len() > 0 {
            seq![seg]
        } else {
            Seq::empty()
        },
{
    let all = seg + seq!['/'] + rest;
    lemma_index_at(seg, '/', rest);
    lemma_index_none(seg, '/');
    assert(all.skip(seg.len() as int + 1) =~= rest);
    assert(all.take(seg.len() as int) =~= seg);
    assert(seg.take(seg.len() as int) =~= seg);
    reveal_with_fuel(segments, 2);
    assert(seq![seg] + segments(Seq::empty()) =~= seq![seg]);
}

/// A text is cut into lines at its line ends.
pub proof fn law_a_text_is_cut_into_lines(line: Seq<char>, rest: Seq<char>)
    requires
        !line.contains('\n'),
    ensures
        lines(line + seq!['\n'] + rest) == seq![line] + lines(rest),
        line.len() > 0 ==> lines(line) == seq![line],
{
    let all = line + seq!['\n'] + rest;
    lemma_index_at(line, '\n', rest);
    lemma_index_none(line, '\n');
    assert(all.skip(line.len() as int + 1) =~= rest);
    assert(all.take(line.len() as int) =~= line);
}

/// The machine's memory is the number behind `MemTotal:`, in kilobytes.
pub proof fn law_the_total_is_read_in_kilobytes(
    blank: Seq<char>,
    kb: nat,
    rest: Seq<char>,
    more: Seq<Seq<char>>,
)
    requires
        forall|i: int| 0 <= i < blank.len() ==> white(#[trigger] blank[i]),
        rest.len() == 0 || white(rest[0]),
        kb * 1024 <= usize::MAX,
    ensures
        total_bytes(seq!["MemTotal:"@ + blank + decimal(kb) + rest] + more) == Some(
            kb as int * 1024,
        ),
{
    reveal_strlit("MemTotal:");
    let line = "MemTotal:"@ + blank + decimal(kb) + rest;
    let tail = blank + decimal(kb) + rest;
    assert(line.take(9) =~= "MemTotal:"@);
    assert(line.skip(9) =~= tail);
    lemma_decimal_digits(kb);
    lemma_first_word(blank, decimal(kb), rest);
    law_a_number_reads_back(kb);
    assert(usize_value(decimal(kb)) == Some(kb as usize));
    let all = seq![line] + more;
    assert(all[0] == line);
}

/// A line that does not begin so says nothing of it.
pub proof fn law_other_lines_say_nothing_of_the_total(line: Seq<char>, more: Seq<Seq<char>>)
    requires
        line.len() < 9 || line.take(9) != "MemTotal:"@,
    ensures
        total_bytes(seq![line] + more) == total_bytes(more),
{
    let all = seq![line] + more;
    assert(all[0] == line);
    assert(all.skip(1) =~= more);
    assert(total_kb(line) is None);
}

proof fn lemma_first_word(blank: Seq<char>, word: Seq<char>, rest: Seq<char>)
    requires
        forall|i: int| 0 <= i < blank.len() ==> white(#[trigger] blank[i]),
        all_digits(word),
        word.len() > 0,
        rest.len() == 0 || white(rest[0]),
    ensures
        first_word(blank + word + rest) == word,
    decreases blank.len(),
{
    let all = blank + word + rest;
    if blank.len() > 0 {
        assert(all[0] == blank[0]);
        assert(all.drop_first() =~= blank.drop_first() + word + rest);
        lemma_first_word(blank.drop_first(), word, rest);
    } else {
        assert(all =~= word + rest);
        assert(is_digit(word[0]));
        lemma_word_front(word, rest);
    }
}

proof fn lemma_word_front(word: Seq<char>, rest: Seq<char>)
    requires
        all_digits(word),
        rest.len() == 0 || white(rest[0]),
    ensures
        word_front(word + rest) == word,
    decreases word.len(),
{
    let all = word + rest;
    if word.len() > 0 {
        assert(is_digit(word[0]));
        assert(all[0] == word[0]);
        assert(all.drop_first() =~= word.drop_first() + rest);
        assert forall|i: int| 0 <= i < word.drop_first().len() implies is_digit(
            #[trigger] word.drop_first()[i],
        ) by {
            assert(is_digit(word[i + 1]));
        }
        lemma_word_front(word.drop_first(), rest);
        assert(seq![all[0]] + word.drop_first() =~= word);
    } else {
        assert(all =~= rest);
    }
}

// The heap's own sizes.

/// The heap's cap is whole blocks. A size that was asked for is granted as it is,
/// from 32 megabytes up; else the cap is a quarter of the memory, but not under 512
/// megabytes nor over four gigabytes.
pub proof fn law_the_cap_follows_the_memory(mb: Option<usize>, ram: int)
    requires
        0 <= ram,
    ensures
        heap_max_of(mb, ram) % 32768 == 0,
        mb matches Some(n) ==> (n >= 32 ==> heap_max_of(mb, ram) == n * 1048576) && (n < 32
            ==> heap_max_of(mb, ram) == 33554432),
        mb is None ==> {
            &&& 536870912 <= heap_max_of(mb, ram) <= 4294967296
            &&& 536870912 <= ram / 4 <= 4294967296 ==> ram / 4 - 32768 < heap_max_of(mb, ram)
                <= ram / 4
            &&& ram / 4 < 536870912 ==> heap_max_of(mb, ram) == 536870912
            &&& ram / 4 > 4294967296 ==> heap_max_of(mb, ram) == 4294967296
        },
{
    match mb {
        Some(n) => {
            let k = if n < 32 {
                32
            } else {
                n as int
            };
            assert(k * 1048576 == (k * 32) * 32768);
            assert((k * 32) * 32768 / 32768 == k * 32) by (nonlinear_arith);
        },
        None => {},
    }
}

/// A collector that is switched off still collects, at a pressure that is neither
/// over four times the ceiling nor over half the heap.
pub proof fn law_the_switch_has_a_limit(ceiling: int, heap_max: int)
    requires
        0 <= ceiling,
        0 <= heap_max,
    ensures
        disabled_limit(ceiling, heap_max) <= ceiling * 4,
        disabled_limit(ceiling, heap_max) * 2 <= heap_max,
        disabled_limit(ceiling, heap_max) == ceiling * 4 || heap_max - 2 < disabled_limit(
            ceiling,
            heap_max,
        ) * 2,
{
}

/// The next trigger is what is live times the growth factor, but never under the
/// floor, and never over the ceiling unless what is live, or the floor, is.
pub proof fn law_the_trigger_follows_what_is_live(live: int, c: Collection)
    requires
        0 <= live,
        1 <= c.growth,
    ensures
        ImmixAllocator::next_threshold(live, c) >= c.floor,
        ImmixAllocator::next_threshold(live, c) >= live || ImmixAllocator::next_threshold(live, c)
            == c.floor,
        live <= c.ceiling && c.floor <= c.ceiling ==> ImmixAllocator::next_threshold(live, c)
            <= c.ceiling,
        c.floor <= live * c.growth && live * c.growth <= c.ceiling
            ==> ImmixAllocator::next_threshold(live, c) == live * c.growth,
        live * c.growth > c.ceiling && live <= c.ceiling && c.floor <= c.ceiling
            ==> ImmixAllocator::next_threshold(live, c) == c.ceiling,
{
    assert(live * c.growth >= live) by (nonlinear_arith)
        requires
            0 <= live,
            1 <= c.growth,
    ;
}

/// A collection is owed once the bytes allocated and charged since the last one
/// reach the threshold, and is not while they are under it, but for the heartbeat of
/// a heap that has been quiet.
pub proof fn law_owed_at_the_threshold(t: Trigger, quiet: bool)
    requires
        t.bytes_since_gc + t.external_since_gc <= usize::MAX,
    ensures
        t.bytes_since_gc + t.external_since_gc >= t.threshold ==> t.due(0, quiet),
        t.bytes_since_gc + t.external_since_gc < t.threshold ==> !t.due(0, false),
        t.bytes_since_gc + t.external_since_gc < t.threshold && t.alloc_count % 1024 != 0
            ==> !t.due(0, quiet),
        t.alloc_count % 1024 == 0 ==> t.due(0, true),
{
}

/// Under stress every `n`th allocation collects: the count of those since the last
/// collection decides, and nothing else.
pub proof fn law_stress_counts_allocations(t: Trigger, n: usize, quiet: bool)
    requires
        n > 0,
    ensures
        t.due(n, quiet) <==> t.alloc_count + 1 >= n,
{
}

/// Who is told to collect: nobody the collector does not know, nobody while nothing
/// is owed or the collector is off and the pressure under its limit; else the
/// thread that allocates, at once, unless it defers or the interpreter's safepoints
/// are awaited, and the pressure is under the hard limit.
pub proof fn law_who_collects(t: Trigger, ctx: TriggerContext)
    ensures
        !ctx.registered ==> t.asks(ctx) is Nothing && t.refill_asks(ctx) is Nothing,
        !t.due(ctx.stress, ctx.quiet) ==> t.asks(ctx) is Nothing,
        !t.enabled && t.pressure() < disabled_limit(ctx.ceiling as int, ctx.heap_max as int)
            ==> t.asks(ctx) is Nothing && t.refill_asks(ctx) is Nothing,
        ctx.registered && t.enabled && t.due(ctx.stress, ctx.quiet) ==> {
            &&& !t.safepoint_mode && !ctx.deferred ==> t.asks(ctx) is Now
            &&& t.pressure() >= t.hard_limit(ctx) ==> t.asks(ctx) is Now
            &&& (t.safepoint_mode || ctx.deferred) && t.pressure() < t.hard_limit(ctx) ==> t.asks(
                ctx,
            ) is Later
            &&& !ctx.deferred ==> t.refill_asks(ctx) is Now
        },
        ctx.registered && t.enabled && t.collect_pending && !ctx.deferred ==> t.refill_asks(
            ctx,
        ) is Now,
        ctx.registered && t.pressure() >= disabled_limit(ctx.ceiling as int, ctx.heap_max as int)
            && t.due(ctx.stress, ctx.quiet) && !ctx.deferred ==> {
            &&& t.refill_asks(ctx) is Now
            &&& !t.safepoint_mode ==> t.asks(ctx) is Now
        },
{
}

/// A collection is put off no further than half the heap, nor further than four
/// thresholds, unless the ceiling is higher.
pub proof fn law_putting_off_has_a_limit(t: Trigger, ctx: TriggerContext)
    ensures
        t.hard_limit(ctx) * 2 <= ctx.heap_max,
        t.hard_limit(ctx) <= t.threshold * 4 || t.hard_limit(ctx) <= ctx.ceiling,
        t.hard_limit(ctx) >= t.threshold * 4 && t.hard_limit(ctx) >= ctx.ceiling
            || ctx.heap_max - 2 < t.hard_limit(ctx) * 2,
{
}

// The rendezvous.

/// The world has stopped when every mutator but the collector is parked or inside a
/// call that may block, and exactly then nobody is late.
pub proof fn law_stopped_when_nobody_is_late(w: &MutatorWorld, collector: u64)
    ensures
        w.at_rest(collector) <==> forall|i: int|
            0 <= i < w.mutators.len() ==> (#[trigger] w.mutators[i]).thread == collector
                || w.mutators[i].parked || w.mutators[i].blocking_depth > 0,
        w.at_rest(collector) <==> w.late_upto(collector, w.mutators.len() as nat).len() == 0,
{
    lemma_late(w, collector, w.mutators.len() as nat);
    if w.at_rest(collector) {
        assert forall|i: int| 0 <= i < w.mutators.len() implies (
        #[trigger] w.mutators[i]).thread == collector || w.mutators[i].parked
            || w.mutators[i].blocking_depth > 0 by {}
    }
}

proof fn lemma_late(w: &MutatorWorld, collector: u64, n: nat)
    requires
        n <= w.mutators.len(),
    ensures
        w.late_upto(collector, n).len() == 0 <==> forall|i: int|
            0 <= i < n ==> (#[trigger] w.mutators[i]).thread == collector
                || w.mutators[i].at_rest(),
    decreases n,
{
    if n > 0 {
        lemma_late(w, collector, (n - 1) as nat);
        let _ = w.mutators[n - 1];
    }
}

} // verus!
