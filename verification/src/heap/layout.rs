//! The sizes every part of the heap agrees on, and the byte that describes
//! one allocation start.

use vstd::prelude::*;

verus! {

/// Bytes in a block.
pub const BLOCK_SIZE: usize = 32768;

/// Bytes in a line.
pub const LINE_SIZE: usize = 128;

/// Every allocation starts on a multiple of this.
pub const ALLOC_QUANTUM: usize = 16;

/// The stride of every conservative walk: a machine word.
pub const WORD: usize = 8;

pub const LINES_PER_BLOCK: usize = 256;

pub const QUANTA_PER_LINE: usize = 8;

pub const QUANTA_PER_BLOCK: usize = 2048;

pub const WORDS_PER_BLOCK: usize = 4096;

/// Line-claim words in a block, 64 bits to a word.
pub const MARK_WORDS: usize = 4;

/// The claim bit of an object byte.
pub const OBJECT_MARK: u8 = 0x80;

/// The size code of an allocation whose length is in the line table.
pub const SPAN_OBJECT: u8 = 9;

/// The two bits that say how the marker treats an allocation's words.
pub const OBJECT_KIND_MASK: u8 = 0x60;

/// Scanned conservatively.
pub const OBJECT_KIND_RAW: u8 = 0x00;

/// Never scanned.
pub const OBJECT_KIND_NOPTR: u8 = 0x20;

/// Word zero is a descriptor; its hooks trace and drop the object.
pub const OBJECT_KIND_TRACED: u8 = 0x40;

pub const OBJECT_SIZE_MASK: u8 = 0x1F;

/// The size code held in an object byte.
pub open spec fn size_code(b: u8) -> u8 {
    b & 0x1F
}

/// The kind bits held in an object byte.
pub open spec fn kind_bits(b: u8) -> u8 {
    b & 0x60
}

/// Whether an object byte carries the claim bit.
pub open spec fn claim_bit(b: u8) -> bool {
    b & 0x80 != 0
}

/// Setting or clearing the claim bit leaves the kind and the size alone.
pub proof fn lemma_claim_bit(b: u8)
    ensures
        size_code(b | 0x80) == size_code(b),
        kind_bits(b | 0x80) == kind_bits(b),
        claim_bit(b | 0x80),
        size_code(b & !0x80u8) == size_code(b),
        kind_bits(b & !0x80u8) == kind_bits(b),
        !claim_bit(b & !0x80u8),
        !claim_bit(b) ==> b & !0x80u8 == b,
{
    assert((b | 0x80) & 0x1F == b & 0x1F && (b | 0x80) & 0x60 == b & 0x60 && (b | 0x80) & 0x80 != 0
        && (b & !0x80u8) & 0x1F == b & 0x1F && (b & !0x80u8) & 0x60 == b & 0x60 && (b & !0x80u8)
        & 0x80 == 0 && (b & 0x80 == 0 ==> b & !0x80u8 == b)) by (bit_vector);
}

/// A fresh small or span code carries no kind and no claim.
pub proof fn lemma_plain_code(c: u8)
    requires
        c <= 0x1F,
    ensures
        size_code(c) == c,
        kind_bits(c) == 0,
        !claim_bit(c),
{
    assert(c <= 0x1F ==> c & 0x1F == c && c & 0x60 == 0 && c & 0x80 == 0) by (bit_vector);
}

/// Adding kind bits to a byte leaves the size and the claim alone.
pub proof fn lemma_kind_bits(b: u8, kind: u8)
    requires
        kind & !0x60u8 == 0,
    ensures
        size_code(b | kind) == size_code(b),
        claim_bit(b | kind) == claim_bit(b),
        kind_bits(b | kind) == kind_bits(b) | kind,
        kind_bits(b) == 0 ==> kind_bits(b | kind) == kind,
{
    assert(kind & !0x60u8 == 0 ==> (b | kind) & 0x1F == b & 0x1F && (b | kind) & 0x80 == b & 0x80
        && (b | kind) & 0x60 == (b & 0x60) | kind && (b & 0x60 == 0 ==> (b | kind) & 0x60 == kind))
        by (bit_vector);
}

/// `a` rounded up to a word boundary.
pub fn word_align_up(a: usize) -> (r: usize)
    requires
        a + 7 <= usize::MAX,
    ensures
        r % 8 == 0,
        a <= r < a + 8,
{
    let sum: usize = a + (WORD - 1);
    assert((sum & !7usize) % 8 == 0 && sum - 7 <= (sum & !7usize) <= sum) by (bit_vector);
    sum & !(WORD - 1)
}

/// Where to start scanning a suspended stack whose top is `top`. The start is
/// aligned after it is widened: `top` may be a byte-sized anchor, and aligning
/// only `saved_sp` would let `top - window` undo the alignment.
pub fn stack_scan_start(saved_sp: usize, top: usize, window: usize) -> (r: usize)
    requires
        saved_sp + 7 <= usize::MAX || top - window + 7 <= usize::MAX,
    ensures
        r % 8 == 0,
        scan_floor(saved_sp as int, top as int, window as int) <= r < scan_floor(
            saved_sp as int,
            top as int,
            window as int,
        ) + 8,
{
    let widened: usize = top.saturating_sub(window);
    let low: usize = if saved_sp < widened {
        saved_sp
    } else {
        widened
    };
    word_align_up(low)
}

/// The lower of the saved stack pointer and the window's bottom.
pub open spec fn scan_floor(saved_sp: int, top: int, window: int) -> int {
    let widened = if top < window {
        0
    } else {
        top - window
    };
    if saved_sp < widened {
        saved_sp
    } else {
        widened
    }
}

/// `n` rounded up to a multiple of sixteen, the size an allocation takes.
pub open spec fn quantum_up(n: int) -> int {
    (n + 15) / 16 * 16
}

/// `n` rounded up to a multiple of `LINE_SIZE`.
pub open spec fn line_up(n: int) -> int {
    (n + 127) / 128 * 128
}

/// `(size + 15) & !15`.
pub fn round_quantum(size: usize) -> (r: usize)
    requires
        size + 15 <= usize::MAX,
    ensures
        r == quantum_up(size as int),
{
    let sum: usize = size + 15;
    assert((sum & !15usize) == sum / 16 * 16) by (bit_vector);
    sum & !15
}

/// `(p + 127) & !127`.
pub fn round_line(p: usize) -> (r: usize)
    requires
        p + 127 <= usize::MAX,
    ensures
        r == line_up(p as int),
{
    let sum: usize = p + (LINE_SIZE - 1);
    assert((sum & !127usize) == sum / 128 * 128) by (bit_vector);
    sum & !(LINE_SIZE - 1)
}

} // verus!
