//! How much memory the heap may take: what the machine offers, read from the
//! text of its files, and what the settings make of it.

use vstd::prelude::*;
use vstd::string::*;

use crate::heap::layout::BLOCK_SIZE;
use crate::platform::Platform;
use crate::text::{
    chars_of, is_white, parse_plain, parse_range, parse_trimmed, same_text, text_of, trimmed,
    usize_value, white,
};

verus! {

/// A modest guess at the machine's memory.
pub const RAM_FALLBACK: usize = 2147483648;

/// Floor and ceiling on the machine-derived heap cap.
pub const HEAP_MAX_FLOOR: u64 = 536870912;

pub const HEAP_MAX_CEILING: u64 = 4294967296;

/// Share of usable memory the heap cap defaults to.
pub const HEAP_MAX_SHARE: u64 = 4;

/// The first collection fires after this many bytes allocated.
pub const INITIAL_TRIGGER_BYTES: usize = 4194304;

pub const DEFAULT_TRIGGER_FLOOR: u64 = 8388608;

pub const TRIGGER_CEILING_MIN: u64 = 67108864;

pub const TRIGGER_CEILING_MAX: u64 = 536870912;

pub const TRIGGER_CEILING_SHARE: u64 = 32;

/// How long after a collection any allocation forces another, in
/// milliseconds.
pub const HEARTBEAT_MS: u64 = 30000;

pub const MB: u64 = 1048576;

/// A setting read as a number: trimmed, and unset when it is not one.
pub open spec fn setting(v: Option<Seq<char>>) -> Option<usize> {
    match v {
        Some(s) => usize_value(trimmed(s)),
        None => None,
    }
}

/// The text of a setting, if it is set.
pub open spec fn text_view(v: Option<&str>) -> Option<Seq<char>> {
    match v {
        Some(s) => Some(s@),
        None => None,
    }
}

/// A setting as a number.
pub fn env_usize(value: Option<&str>) -> (r: Option<usize>)
    ensures
        r == setting(text_view(value)),
{
    match value {
        Some(v) => parse_trimmed(v),
        None => None,
    }
}

/// The heartbeat interval in milliseconds; the setting overrides it.
pub fn heartbeat_interval(value: Option<&str>) -> (ms: u64)
    ensures
        ms == match setting(text_view(value)) {
            Some(n) => n as u64,
            None => HEARTBEAT_MS,
        },
{
    match env_usize(value) {
        Some(n) => n as u64,
        None => HEARTBEAT_MS,
    }
}

/// How much new allocation to allow per unit of live data: the setting, when
/// it is a positive number, else four.
pub fn growth_factor(value: Option<&str>) -> (n: usize)
    ensures
        n == match value {
            Some(v) => match usize_value(v@) {
                Some(k) if k >= 1 => k,
                _ => 4,
            },
            None => 4,
        },
        n >= 1,
{
    match value {
        Some(v) => match parse_plain(v) {
            Some(k) => if k >= 1 {
                k
            } else {
                4
            },
            None => 4,
        },
        None => 4,
    }
}

/// Collect at every `n`th allocation: off when unset, empty or zero, and at
/// every one when the setting is no number.
pub fn gc_stress_every(value: Option<&str>) -> (n: usize)
    ensures
        n == match value {
            Some(v) => if v@ == seq!['0'] || v@.len() == 0 {
                0
            } else {
                match usize_value(trimmed(v@)) {
                    Some(k) => k,
                    None => 1,
                }
            },
            None => 0,
        },
{
    match value {
        Some(v) => {
            proof {
                reveal_strlit("0");
                assert("0"@ =~= seq!['0']);
            }
            if same_text(v, "0") || v.is_empty() {
                0
            } else {
                match parse_trimmed(v) {
                    Some(k) => k,
                    None => 1,
                }
            }
        },
        None => 0,
    }
}

/// Whether a setting is exactly `word`.
fn is_word(value: Option<&str>, word: &str) -> (r: bool)
    ensures
        r == (text_view(value) == Some(word@)),
{
    match value {
        Some(v) => same_text(v, word),
        None => false,
    }
}

/// Whether mutators have bump regions: not under stress, and not when turned
/// off.
pub fn tlab_enabled(stress: usize, value: Option<&str>) -> (r: bool)
    ensures
        r == (stress == 0 && text_view(value) != Some("0"@) && text_view(value) != Some("off"@)),
{
    stress == 0 && !is_word(value, "0") && !is_word(value, "off")
}

/// Whether the unclaimed lines of kept blocks are reused.
pub fn recycle_lines(value: Option<&str>) -> (r: bool)
    ensures
        r == (text_view(value) != Some("0"@)),
{
    !is_word(value, "0")
}

/// Whether free blocks go back to the system.
pub fn handback_enabled(value: Option<&str>) -> (r: bool)
    ensures
        r == (text_view(value) != Some("0"@)),
{
    !is_word(value, "0")
}

/// Whether the sweep keeps every block.
pub fn no_reclaim(value: Option<&str>) -> (r: bool)
    ensures
        r == (text_view(value) == Some("1"@)),
{
    is_word(value, "1")
}

/// Whether statistics are printed.
pub fn gc_stats_enabled(value: Option<&str>) -> (r: bool)
    ensures
        r == match value {
            Some(v) => v@ != "0"@ && v@.len() > 0,
            None => false,
        },
{
    match value {
        Some(v) => !same_text(v, "0") && !v.is_empty(),
        None => false,
    }
}

/// How many threads mark: the setting, at least one, when it is a number;
/// else one in a wasm module, and one fewer than the machine offers, between one
/// and eight, elsewhere.
pub fn mark_threads(value: Option<&str>, parallelism: Option<usize>, platform: Platform) -> (n:
    usize)
    ensures
        n == match text_view(value) {
            Some(v) if usize_value(v) is Some => if usize_value(v)->0 == 0 {
                1
            } else {
                usize_value(v)->0
            },
            _ => match parallelism {
                Some(p) => if platform is Wasm || p <= 2 {
                    1
                } else if p >= 9 {
                    8
                } else {
                    (p - 1) as usize
                },
                None => 1,
            },
        },
        n >= 1,
{
    if let Some(v) = value {
        if let Some(n) = parse_plain(v) {
            return if n == 0 {
                1
            } else {
                n
            };
        }
    }
    if platform.is_wasm() {
        return 1;
    }
    match parallelism {
        Some(p) => {
            let fewer: usize = if p == 0 {
                0
            } else {
                p - 1
            };
            if fewer < 1 {
                1
            } else if fewer > 8 {
                8
            } else {
                fewer
            }
        },
        None => 1,
    }
}

/// `n` held between `lo` and `hi`.
pub open spec fn clamped(n: int, lo: int, hi: int) -> int {
    if n < lo {
        lo
    } else if n > hi {
        hi
    } else {
        n
    }
}

/// The heap cap in whole blocks: the setting in megabytes, at least 32, else a
/// quarter of the machine's memory between half a gigabyte and four.
pub open spec fn heap_max_of(mb: Option<usize>, ram: int) -> int {
    let bytes = match mb {
        Some(n) => (if n < 32 {
            32
        } else {
            n as int
        }) * MB,
        None => clamped(ram / 4, HEAP_MAX_FLOOR as int, HEAP_MAX_CEILING as int),
    };
    bytes / 32768 * 32768
}

pub fn heap_max_bytes(mb: Option<usize>, ram: u64) -> (r: u64)
    requires
        mb matches Some(n) ==> n * MB <= u64::MAX,
    ensures
        r == heap_max_of(mb, ram as int),
        r % 32768 == 0,
{
    let bytes: u64 = match mb {
        Some(n) => if n < 32 {
            32 * MB
        } else {
            n as u64 * MB
        },
        None => {
            let share: u64 = ram / HEAP_MAX_SHARE;
            if share < HEAP_MAX_FLOOR {
                HEAP_MAX_FLOOR
            } else if share > HEAP_MAX_CEILING {
                HEAP_MAX_CEILING
            } else {
                share
            }
        },
    };
    bytes / BLOCK_SIZE as u64 * BLOCK_SIZE as u64
}

/// The least pressure a collection waits for: the setting in megabytes, at
/// least one, else eight.
pub fn trigger_floor_bytes(mb: Option<usize>) -> (r: u64)
    requires
        mb matches Some(n) ==> n * MB <= u64::MAX,
    ensures
        r == match mb {
            Some(n) => if n < 1 {
                MB as int
            } else {
                n * MB
            },
            None => DEFAULT_TRIGGER_FLOOR as int,
        },
{
    match mb {
        Some(n) => if n < 1 {
            MB
        } else {
            n as u64 * MB
        },
        None => DEFAULT_TRIGGER_FLOOR,
    }
}

/// The most new allocation between collections: a thirty-second of the
/// machine's memory, between 64 and 512 megabytes.
pub fn trigger_ceiling_bytes(ram: u64) -> (r: u64)
    ensures
        r == clamped(ram as int / 32, TRIGGER_CEILING_MIN as int, TRIGGER_CEILING_MAX as int),
{
    let share: u64 = ram / TRIGGER_CEILING_SHARE;
    if share < TRIGGER_CEILING_MIN {
        TRIGGER_CEILING_MIN
    } else if share > TRIGGER_CEILING_MAX {
        TRIGGER_CEILING_MAX
    } else {
        share
    }
}

/// Never defer a collection past this much pressure.
pub fn max_deferred_pressure(heap_max: u64) -> (r: u64)
    ensures
        r == heap_max / 2,
{
    heap_max / 2
}

/// The pressure at which a disabled collector collects anyway.
pub open spec fn disabled_limit(ceiling: int, heap_max: int) -> int {
    if ceiling * 4 < heap_max / 2 {
        ceiling * 4
    } else {
        heap_max / 2
    }
}

pub fn gc_disabled_max_pressure(ceiling: u64, heap_max: u64) -> (r: u64)
    ensures
        r == disabled_limit(ceiling as int, heap_max as int),
{
    let most: u64 = max_deferred_pressure(heap_max);
    match ceiling.checked_mul(4) {
        Some(n) => if n < most {
            n
        } else {
            most
        },
        None => most,
    }
}

/// Whether a triggered collection may run: the collector is enabled, or the
/// pressure is past what a disabled one lets by.
pub fn triggered_collection_allowed(enabled: bool, pressure: u64, ceiling: u64, heap_max: u64) -> (r:
    bool)
    ensures
        r == (enabled || pressure >= disabled_limit(ceiling as int, heap_max as int)),
{
    enabled || pressure >= gc_disabled_max_pressure(ceiling, heap_max)
}

// ---- The machine's memory ----

/// Index of the first `c` in `s`, or its length.
pub open spec fn index_of(s: Seq<char>, c: char) -> int
    decreases s.len(),
{
    if s.len() == 0 || s[0] == c {
        0
    } else {
        1 + index_of(s.drop_first(), c)
    }
}

pub proof fn lemma_index_of(s: Seq<char>, c: char)
    ensures
        0 <= index_of(s, c) <= s.len(),
        forall|i: int| 0 <= i < index_of(s, c) ==> #[trigger] s[i] != c,
        index_of(s, c) < s.len() ==> s[index_of(s, c)] == c,
    decreases s.len(),
{
    if s.len() > 0 && s[0] != c {
        lemma_index_of(s.drop_first(), c);
        let k = index_of(s.drop_first(), c);
        assert forall|i: int| 0 <= i < 1 + k implies #[trigger] s[i] != c by {
            if i > 0 {
                assert(s[i] == s.drop_first()[i - 1]);
            }
        }
        if k < s.drop_first().len() {
            assert(s.drop_first()[k] == c);
        }
    }
}

/// Where the first `c` at or after `from` and before `to` stands, or `to`.
fn find_char(s: &Vec<char>, from: usize, to: usize, c: char) -> (r: usize)
    requires
        from <= to <= s.len(),
    ensures
        from <= r <= to,
        r - from == index_of(s@.subrange(from as int, to as int), c),
{
    let mut i: usize = from;
    while i < to && s[i] != c
        invariant
            from <= i <= to <= s.len(),
            index_of(s@.subrange(from as int, to as int), c) == i - from + index_of(
                s@.subrange(i as int, to as int),
                c,
            ),
        decreases to - i,
    {
        assert(s@.subrange(i as int, to as int).drop_first() =~= s@.subrange(i + 1, to as int));
        i = i + 1;
    }
    i
}

/// The part after the second colon of a line, without leading slashes; `None`
/// when there is no such part.
pub open spec fn cgroup_path(line: Seq<char>) -> Option<Seq<char>> {
    let a = index_of(line, ':');
    if a >= line.len() {
        None
    } else {
        let rest = line.skip(a + 1);
        let b = index_of(rest, ':');
        if b >= rest.len() {
            None
        } else {
            Some(rest.skip(b + 1))
        }
    }
}

/// The segments of a path: what stands between slashes, empty ones left out.
pub open spec fn segments(path: Seq<char>) -> Seq<Seq<char>>
    decreases path.len(),
{
    if path.len() == 0 {
        Seq::empty()
    } else {
        let n = index_of(path, '/');
        let rest = if n < path.len() {
            path.skip(n + 1)
        } else {
            Seq::empty()
        };
        proof {
            lemma_index_of(path, '/');
        }
        if n <= 0 {
            segments(rest)
        } else {
            seq![path.take(n)] + segments(rest)
        }
    }
}

/// The directories along a path below `root`, `root` itself first.
pub open spec fn along(root: Seq<char>, segs: Seq<Seq<char>>) -> Seq<Seq<char>>
    decreases segs.len(),
{
    if segs.len() == 0 {
        seq![root]
    } else {
        seq![root] + along(root + seq!['/'] + segs[0], segs.skip(1))
    }
}

/// The strings' characters.
pub open spec fn views(v: Seq<String>) -> Seq<Seq<char>> {
    v.map_values(|s: String| s@)
}

/// Where a control group's limits may be written, for one line of the file
/// that names the process's groups: every directory along its path.
pub fn cgroup_dirs(line: &str) -> (r: Option<Vec<String>>)
    ensures
        match r {
            Some(v) => cgroup_path(line@) is Some && views(v@) == along(
                "/sys/fs/cgroup"@,
                segments(cgroup_path(line@)->0),
            ),
            None => cgroup_path(line@) is None,
        },
{
    let s = chars_of(line);
    let n: usize = s.len();
    assert(s@.subrange(0, n as int) =~= s@);
    let a: usize = find_char(&s, 0, n, ':');
    if a >= n {
        return None;
    }
    assert(s@.subrange(a + 1, n as int) =~= s@.skip(a + 1));
    let b: usize = find_char(&s, a + 1, n, ':');
    if b >= n {
        return None;
    }
    assert(s@.skip(a + 1).skip(b - a) =~= s@.subrange(b + 1, n as int));
    let mut at: usize = b + 1;
    let mut dir = "/sys/fs/cgroup".to_owned();
    let mut out: Vec<String> = Vec::new();
    out.push(dir.clone());
    let ghost all = along("/sys/fs/cgroup"@, segments(s@.subrange(b + 1, n as int)));
    proof {
        assert(views(out@) =~= seq!["/sys/fs/cgroup"@]);
        assert(views(out@).drop_last() + along(dir@, segments(s@.subrange(at as int, n as int)))
            =~= all);
    }
    while at < n
        invariant
            at <= n,
            n == s.len(),
            out.len() > 0,
            out@.last()@ == dir@,
            views(out@).drop_last() + along(dir@, segments(s@.subrange(at as int, n as int)))
                == all,
        decreases n - at,
    {
        let ghost rest = s@.subrange(at as int, n as int);
        let end: usize = find_char(&s, at, n, '/');
        let next: usize = if end < n {
            end + 1
        } else {
            n
        };
        let ghost tail = s@.subrange(next as int, n as int);
        proof {
            assert(end < n ==> tail =~= rest.skip(end - at + 1));
            assert(end == n ==> tail =~= Seq::<char>::empty());
        }
        if end > at {
            let seg = text_of(&s, at, end);
            assert(seg@ =~= rest.take(end - at));
            let ghost prior = dir@;
            let ghost held = out@;
            dir.append("/");
            dir.append(seg.as_str());
            proof {
                reveal_strlit("/");
                assert(dir@ =~= prior + seq!['/'] + seg@);
                let segs = segments(rest);
                assert(segs =~= seq![seg@] + segments(tail));
                assert(segs.skip(1) =~= segments(tail));
                assert(segs[0] == seg@);
            }
            out.push(dir.clone());
            proof {
                assert(views(out@).drop_last() =~= views(held).drop_last() + seq![prior]) by {
                    assert(views(held).last() == prior);
                }
                assert(along(prior, segments(rest)) =~= seq![prior] + along(dir@, segments(tail)));
                assert(views(out@).drop_last() + along(dir@, segments(tail)) =~= views(
                    held,
                ).drop_last() + along(prior, segments(rest)));
            }
        } else {
            assert(segments(rest) == segments(tail));
        }
        at = next;
    }
    proof {
        assert(s@.subrange(at as int, n as int) =~= Seq::<char>::empty());
        assert(along(dir@, Seq::<Seq<char>>::empty()) =~= seq![dir@]);
        assert(views(out@) =~= all) by {
            assert(views(out@).last() == dir@);
        }
    }
    Some(out)
}

/// What one limit file says: its number, when it is one, is not zero and is
/// not the mark that stands for no limit.
pub open spec fn limit_value(text: Seq<char>) -> Option<usize> {
    match usize_value(trimmed(text)) {
        Some(n) if 0 < n < 1152921504606846976 => Some(n),
        _ => None,
    }
}

/// The least of the limits, or the largest number when there is none.
pub open spec fn least_limit(texts: Seq<String>) -> usize
    decreases texts.len(),
{
    if texts.len() == 0 {
        usize::MAX
    } else {
        let m = least_limit(texts.drop_last());
        match limit_value(texts.last()@) {
            Some(n) => if n < m {
                n
            } else {
                m
            },
            None => m,
        }
    }
}

/// The limit that binds among the texts of the limit files: limits are
/// hierarchical, so the smallest wins. The largest number when none binds.
pub fn cgroup_limit(texts: &Vec<String>) -> (limit: usize)
    ensures
        limit == least_limit(texts@),
{
    let mut limit: usize = usize::MAX;
    let mut i: usize = 0;
    while i < texts.len()
        invariant
            i <= texts.len(),
            limit == least_limit(texts@.take(i as int)),
        decreases texts.len() - i,
    {
        assert(texts@.take(i + 1).drop_last() =~= texts@.take(i as int));
        if let Some(n) = parse_trimmed(texts[i].as_str()) {
            if n > 0 && (n as u64) < 1152921504606846976u64 {
                if n < limit {
                    limit = n;
                }
            }
        }
        i = i + 1;
    }
    assert(texts@.take(i as int) =~= texts@);
    limit
}

/// The lines of `s`: what newlines end or separate.
pub open spec fn lines(s: Seq<char>) -> Seq<Seq<char>>
    decreases s.len(),
{
    if s.len() == 0 {
        Seq::empty()
    } else {
        let n = index_of(s, '\n');
        proof {
            lemma_index_of(s, '\n');
        }
        if n >= s.len() {
            seq![s]
        } else if 0 <= n {
            seq![s.take(n)] + lines(s.skip(n + 1))
        } else {
            Seq::empty()
        }
    }
}

/// The first word of `s`: what stands before white space once white space in
/// front is skipped. Empty when there is none.
pub open spec fn first_word(s: Seq<char>) -> Seq<char>
    decreases s.len(),
{
    if s.len() == 0 {
        s
    } else if white(s[0]) {
        first_word(s.drop_first())
    } else {
        word_front(s)
    }
}

/// What of `s` stands before its first white space.
pub open spec fn word_front(s: Seq<char>) -> Seq<char>
    decreases s.len(),
{
    if s.len() == 0 || white(s[0]) {
        Seq::empty()
    } else {
        seq![s[0]] + word_front(s.drop_first())
    }
}

/// The kilobytes a line gives as the machine's total, if it is that line.
pub open spec fn total_kb(line: Seq<char>) -> Option<usize> {
    if line.len() >= 9 && line.take(9) == "MemTotal:"@ {
        usize_value(first_word(line.skip(9)))
    } else {
        None
    }
}

/// The bytes of the first line that gives a total.
pub open spec fn total_bytes(ls: Seq<Seq<char>>) -> Option<int>
    decreases ls.len(),
{
    if ls.len() == 0 {
        None
    } else {
        match total_kb(ls[0]) {
            Some(kb) => Some(
                if kb * 1024 <= usize::MAX {
                    kb * 1024
                } else {
                    usize::MAX as int
                },
            ),
            None => total_bytes(ls.skip(1)),
        }
    }
}

/// The number in the first word between `lo` and `hi`.
fn word_number(s: &Vec<char>, lo: usize, hi: usize) -> (r: Option<usize>)
    requires
        lo <= hi <= s.len(),
    ensures
        r == usize_value(first_word(s@.subrange(lo as int, hi as int))),
{
    let mut a: usize = lo;
    while a < hi && is_white(s[a])
        invariant
            lo <= a <= hi <= s.len(),
            first_word(s@.subrange(lo as int, hi as int)) == first_word(
                s@.subrange(a as int, hi as int),
            ),
        decreases hi - a,
    {
        assert(s@.subrange(a as int, hi as int).drop_first() =~= s@.subrange(a + 1, hi as int));
        a = a + 1;
    }
    let mut b: usize = a;
    let ghost rest = s@.subrange(a as int, hi as int);
    proof {
        assert(s@.subrange(a as int, b as int) + word_front(rest) =~= word_front(rest));
        assert(first_word(rest) == word_front(rest)) by {
            if rest.len() == 0 {
                assert(rest =~= Seq::<char>::empty());
            }
        }
    }
    while b < hi && !is_white(s[b])
        invariant
            a <= b <= hi <= s.len(),
            rest == s@.subrange(a as int, hi as int),
            s@.subrange(a as int, b as int) + word_front(s@.subrange(b as int, hi as int))
                == word_front(rest),
        decreases hi - b,
    {
        let ghost here = s@.subrange(b as int, hi as int);
        assert(here.drop_first() =~= s@.subrange(b + 1, hi as int));
        assert(s@.subrange(a as int, b + 1) =~= s@.subrange(a as int, b as int) + seq![here[0]]);
        assert(s@.subrange(a as int, b as int) + (seq![here[0]] + word_front(here.drop_first()))
            =~= s@.subrange(a as int, b + 1) + word_front(here.drop_first()));
        b = b + 1;
    }
    assert(word_front(s@.subrange(b as int, hi as int)) =~= Seq::<char>::empty());
    assert(s@.subrange(a as int, b as int) =~= word_front(rest));
    parse_range(s, a, b)
}

/// The machine's total memory in bytes, from the text of its memory file.
pub fn mem_total(meminfo: &str) -> (r: Option<usize>)
    ensures
        match r {
            Some(n) => total_bytes(lines(meminfo@)) == Some(n as int),
            None => total_bytes(lines(meminfo@)) is None,
        },
{
    let s = chars_of(meminfo);
    let n: usize = s.len();
    let head = chars_of("MemTotal:");
    let mut at: usize = 0;
    proof {
        reveal_strlit("MemTotal:");
        assert(s@.subrange(0, n as int) =~= s@);
    }
    while at < n
        invariant
            at <= n,
            n == s.len(),
            head@ == "MemTotal:"@,
            head.len() == 9,
            total_bytes(lines(s@.subrange(at as int, n as int))) == total_bytes(lines(meminfo@)),
        decreases n - at,
    {
        let ghost rest = s@.subrange(at as int, n as int);
        let end: usize = find_char(&s, at, n, '\n');
        let next: usize = if end < n {
            end + 1
        } else {
            n
        };
        let ghost line = s@.subrange(at as int, end as int);
        let ghost ls = lines(rest);
        proof {
            assert(line =~= rest.take(end - at));
            assert(s@.subrange(next as int, n as int) =~= if end < n {
                rest.skip(end - at + 1)
            } else {
                Seq::empty()
            });
            assert(ls[0] == line) by {
                if end == n {
                    assert(line =~= rest);
                }
            }
            assert(ls.skip(1) =~= lines(s@.subrange(next as int, n as int)));
        }
        if starts_with(&s, at, end, &head) {
            assert(line.take(9) =~= "MemTotal:"@);
            assert(line.skip(9) =~= s@.subrange(at + 9, end as int));
            if let Some(kb) = word_number(&s, at + 9, end) {
                return match kb.checked_mul(1024) {
                    Some(bytes) => Some(bytes),
                    None => Some(usize::MAX),
                };
            }
        } else {
            assert(total_kb(line) is None);
        }
        at = next;
    }
    assert(s@.subrange(at as int, n as int) =~= Seq::<char>::empty());
    None
}

/// Whether the characters from `from` to `to` begin with `head`.
fn starts_with(s: &Vec<char>, from: usize, to: usize, head: &Vec<char>) -> (r: bool)
    requires
        from <= to <= s.len(),
    ensures
        r == (to - from >= head.len() && s@.subrange(from as int, to as int).take(
            head.len() as int,
        ) == head@),
{
    if to - from < head.len() {
        return false;
    }
    let ghost cut = s@.subrange(from as int, to as int).take(head.len() as int);
    let mut i: usize = 0;
    while i < head.len()
        invariant
            from <= to <= s.len(),
            to - from >= head.len(),
            i <= head.len(),
            cut == s@.subrange(from as int, to as int).take(head.len() as int),
            forall|k: int| 0 <= k < i ==> cut[k] == #[trigger] head[k],
        decreases head.len() - i,
    {
        if s[from + i] != head[i] {
            assert(cut[i as int] != head@[i as int]);
            return false;
        }
        i = i + 1;
    }
    assert(cut =~= head@);
    true
}

/// Usable memory for this process: the control-group limit when there is one,
/// else the machine's memory, else a modest guess.
pub fn usable_ram_bytes(limits: &Vec<String>, meminfo: Option<&str>) -> (bytes: usize)
    ensures
        bytes == if least_limit(limits@) != usize::MAX {
            least_limit(limits@) as int
        } else {
            match text_view(meminfo) {
                Some(t) => match total_bytes(lines(t)) {
                    Some(n) => n,
                    None => RAM_FALLBACK as int,
                },
                None => RAM_FALLBACK as int,
            }
        },
{
    let limit: usize = cgroup_limit(limits);
    if limit != usize::MAX {
        return limit;
    }
    match meminfo {
        Some(t) => match mem_total(t) {
            Some(n) => n,
            None => RAM_FALLBACK,
        },
        None => RAM_FALLBACK,
    }
}

} // verus!
