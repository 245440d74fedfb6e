//! That two members never share a symbol.

use vstd::prelude::*;
use vstd::utf8::{
    decode_first_codepoint, encode_utf8, encode_utf8_decode_utf8, encode_utf8_valid_utf8,
    is_continuation_byte, length_of_first_codepoint, pop_first_scalar, valid_first_scalar,
    valid_utf8,
};

use crate::link::{escaped, escaped_byte, escaped_bytes, plain, segment, symbol_text, Kind};
use crate::text::{decimal, digit_char, hex_char};

verus! {

pub open spec fn digit(c: char) -> bool {
    '0' <= c && c <= '9'
}

/// A lower-case hexadecimal digit.
pub open spec fn hexed(c: char) -> bool {
    digit(c) || ('a' <= c && c <= 'f')
}

/// How many digits the length of a name takes.
pub open spec fn width(text: Seq<char>) -> nat {
    decimal(escaped(text).len()).len()
}

/// Whether a name begins with a digit.
pub open spec fn digit_first(text: Seq<char>) -> bool {
    escaped(text).len() > 0 && digit(escaped(text)[0])
}

/// Whether the length of one of two names can be told from the text behind it:
/// not when it takes fewer digits than the other's and the name begins with
/// one.
pub open spec fn told_apart(a: Seq<char>, b: Seq<char>) -> bool {
    &&& width(a) < width(b) ==> !digit_first(a)
    &&& width(b) < width(a) ==> !digit_first(b)
}

// Numbers.

proof fn lemma_decimal(n: nat)
    ensures
        decimal(n).len() > 0,
        forall|i: int| 0 <= i < decimal(n).len() ==> digit(#[trigger] decimal(n)[i]),
        n < 10 ==> decimal(n) == seq![digit_char(n as int)],
        n >= 10 ==> decimal(n).len() >= 2,
    decreases n,
{
    if n >= 10 {
        lemma_decimal(n / 10);
        assert forall|i: int| 0 <= i < decimal(n).len() implies digit(#[trigger] decimal(n)[i]) by {
            if i < decimal(n / 10).len() {
                assert(decimal(n)[i] == decimal(n / 10)[i]);
            }
        }
    }
}

proof fn lemma_decimal_width(a: nat, b: nat)
    requires
        a <= b,
    ensures
        decimal(a).len() <= decimal(b).len(),
    decreases b,
{
    if a >= 10 {
        lemma_decimal_width(a / 10, b / 10);
    } else {
        lemma_decimal(b);
    }
}

proof fn lemma_decimal_injective(a: nat, b: nat)
    requires
        decimal(a) == decimal(b),
    ensures
        a == b,
    decreases a,
{
    lemma_decimal(a);
    lemma_decimal(b);
    let da = decimal(a).last();
    if a >= 10 && b >= 10 {
        assert(decimal(a).drop_last() =~= decimal(a / 10));
        assert(decimal(b).drop_last() =~= decimal(b / 10));
        lemma_decimal_injective(a / 10, b / 10);
        assert(da == digit_char((a % 10) as int));
        assert(da == digit_char((b % 10) as int));
    } else if a < 10 && b < 10 {
        assert(decimal(a)[0] == digit_char(a as int));
        assert(decimal(b)[0] == digit_char(b as int));
    }
}

// Escapes.

proof fn lemma_escaped_join(a: Seq<u8>, b: Seq<u8>)
    ensures
        escaped_bytes(a + b) == escaped_bytes(a) + escaped_bytes(b),
    decreases a.len(),
{
    if a.len() == 0 {
        assert(a + b =~= b);
        assert(escaped_bytes(a) + escaped_bytes(b) =~= escaped_bytes(b));
    } else {
        assert((a + b).drop_first() =~= a.drop_first() + b);
        lemma_escaped_join(a.drop_first(), b);
        let head = escaped_byte(a[0]);
        let rest = escaped_bytes(a.drop_first());
        assert(head + (rest + escaped_bytes(b)) =~= (head + rest) + escaped_bytes(b));
    }
}

proof fn lemma_hex_chars(b: u8)
    ensures
        hexed(hex_char(b as int / 16)),
        hexed(hex_char(b as int % 16)),
        b >= 0xc0 && b < 0xd0 <==> hex_char(b as int / 16) == 'c',
        is_continuation_byte(b) <==> (hex_char(b as int / 16) == '8' || hex_char(b as int / 16)
            == '9' || hex_char(b as int / 16) == 'a' || hex_char(b as int / 16) == 'b'),
        digit(hex_char(b as int % 16)) ==> hex_char(b as int % 16) == digit_char(b as int % 16),
{
}

proof fn lemma_byte_injective(a: u8, b: u8)
    requires
        escaped_byte(a)[0] == escaped_byte(b)[0],
        escaped_byte(a)[0] == '_' ==> escaped_byte(a)[1] == escaped_byte(b)[1] && escaped_byte(
            a,
        )[2] == escaped_byte(b)[2],
    ensures
        a == b,
{
    if plain(a) {
        assert(escaped_byte(a)[0] == a as char);
        assert(a as char != '_');
        if plain(b) {
            assert(escaped_byte(b)[0] == b as char);
        }
    } else {
        assert(escaped_byte(a)[0] == '_');
        if plain(b) {
            assert(escaped_byte(b)[0] == b as char);
        }
        assert(hex_char(a as int / 16) == hex_char(b as int / 16));
        assert(hex_char(a as int % 16) == hex_char(b as int % 16));
    }
}

proof fn lemma_escaped_injective(a: Seq<u8>, b: Seq<u8>)
    requires
        escaped_bytes(a) == escaped_bytes(b),
    ensures
        a == b,
    decreases a.len(),
{
    if a.len() == 0 {
        if b.len() > 0 {
            assert(escaped_byte(b[0]).len() > 0);
            assert(escaped_bytes(b).len() > 0);
        }
        assert(a =~= b);
    } else {
        let x = escaped_bytes(a);
        assert(x[0] == escaped_byte(a[0])[0]);
        if b.len() == 0 {
            assert(x.len() > 0);
        } else {
            assert(x[0] == escaped_byte(b[0])[0]);
            if x[0] == '_' {
                assert(!plain(a[0])) by {
                    if plain(a[0]) {
                        assert(escaped_byte(a[0])[0] == a[0] as char);
                    }
                }
                assert(!plain(b[0])) by {
                    if plain(b[0]) {
                        assert(escaped_byte(b[0])[0] == b[0] as char);
                    }
                }
                assert(x[1] == escaped_byte(a[0])[1] && x[1] == escaped_byte(b[0])[1]);
                assert(x[2] == escaped_byte(a[0])[2] && x[2] == escaped_byte(b[0])[2]);
            }
            lemma_byte_injective(a[0], b[0]);
            let n = escaped_byte(a[0]).len() as int;
            assert(x.skip(n) =~= escaped_bytes(a.drop_first()));
            assert(x.skip(n) =~= escaped_bytes(b.drop_first()));
            lemma_escaped_injective(a.drop_first(), b.drop_first());
            assert(seq![a[0]] + a.drop_first() =~= a);
            assert(seq![b[0]] + b.drop_first() =~= b);
        }
    }
}

/// An underscore in an escaped text begins a byte; one that reads `_c` and a
/// digit is the first of a two-byte character.
pub open spec fn escape_at(s: Seq<char>, i: int) -> bool {
    &&& i + 2 < s.len()
    &&& hexed(s[i + 1])
    &&& hexed(s[i + 2])
    &&& s[i + 1] == 'c' && digit(s[i + 2]) ==> {
        &&& i + 4 < s.len()
        &&& s[i + 2] != '0'
        &&& s[i + 2] != '1'
        &&& s[i + 3] == '_'
        &&& (s[i + 4] == '8' || s[i + 4] == '9' || s[i + 4] == 'a' || s[i + 4] == 'b')
    }
}

proof fn lemma_escapes(bytes: Seq<u8>, i: int)
    requires
        valid_utf8(bytes),
        0 <= i < escaped_bytes(bytes).len(),
        escaped_bytes(bytes)[i] == '_',
    ensures
        escape_at(escaped_bytes(bytes), i),
    decreases bytes.len(),
{
    assert(bytes.len() > 0);
    let k = length_of_first_codepoint(bytes);
    let rest = pop_first_scalar(bytes);
    let first = bytes.subrange(0, k);
    assert(valid_first_scalar(bytes));
    assert(first + rest =~= bytes);
    lemma_escaped_join(first, rest);
    let a = escaped_bytes(first);
    let b = escaped_bytes(rest);
    let s = escaped_bytes(bytes);
    assert(s == a + b);
    if i >= a.len() {
        assert(b[i - a.len()] == '_');
        lemma_escapes(rest, i - a.len());
        let j = i - a.len();
        assert(b[j + 1] == s[i + 1] && b[j + 2] == s[i + 2]);
        if b[j + 1] == 'c' && digit(b[j + 2]) {
            assert(b[j + 3] == s[i + 3] && b[j + 4] == s[i + 4]);
        }
    } else {
        lemma_first_escapes(bytes, i);
    }
}

/// The bytes of one character.
proof fn lemma_first_escapes(bytes: Seq<u8>, i: int)
    requires
        bytes.len() > 0,
        valid_first_scalar(bytes),
        0 <= i < escaped_bytes(bytes.subrange(0, length_of_first_codepoint(bytes))).len(),
        escaped_bytes(bytes.subrange(0, length_of_first_codepoint(bytes)))[i] == '_',
    ensures
        escape_at(escaped_bytes(bytes), i),
{
    let k = length_of_first_codepoint(bytes);
    let first = bytes.subrange(0, k);
    let rest = bytes.subrange(k, bytes.len() as int);
    assert(first + rest =~= bytes);
    lemma_escaped_join(first, rest);
    let a = escaped_bytes(first);
    let s = escaped_bytes(bytes);
    assert(forall|j: int| 0 <= j < a.len() ==> s[j] == a[j]);
    let b0 = bytes[0];
    lemma_hex_chars(b0);
    if k == 1 {
        assert(first =~= seq![b0]);
        assert(first.drop_first() =~= Seq::<u8>::empty());
        assert(escaped_bytes(first.drop_first()) =~= Seq::<char>::empty());
        assert(a =~= escaped_byte(b0));
        assert(!plain(b0)) by {
            if plain(b0) {
                assert(a[0] == b0 as char);
            }
        }
        assert(i == 0) by {
            if i == 1 {
                assert(hexed(a[1]));
            }
            if i == 2 {
                assert(hexed(a[2]));
            }
        }
    } else {
        lemma_multi(bytes, k);
        lemma_multi_escapes(first, a, s, i, k);
    }
}

/// Every byte of a longer character is written as an escape, and the first of
/// a two-byte one is at least `c2`.
proof fn lemma_multi(bytes: Seq<u8>, k: int)
    requires
        bytes.len() > 0,
        valid_first_scalar(bytes),
        k == length_of_first_codepoint(bytes),
        k > 1,
    ensures
        2 <= k <= 4,
        k <= bytes.len(),
        bytes[0] >= 0xc2,
        k > 2 ==> bytes[0] >= 0xe0,
        forall|j: int| 1 <= j < k ==> is_continuation_byte(#[trigger] bytes[j]),
{
    if k == 2 {
        let b0 = bytes[0];
        let b1 = bytes[1];
        let cp = decode_first_codepoint(bytes);
        assert(cp == (((b0 & 0x1F) as u32) << 6) | ((b1 & 0x3f) as u32));
        assert(b0 >= 0xc0 && b0 < 0xc2 ==> ((((b0 & 0x1F) as u32) << 6) | ((b1 & 0x3f) as u32))
            < 0x80) by (bit_vector);
    }
}

proof fn lemma_multi_escapes(first: Seq<u8>, a: Seq<char>, s: Seq<char>, i: int, k: int)
    requires
        2 <= k <= 4,
        first.len() == k,
        a == escaped_bytes(first),
        a.len() <= s.len(),
        forall|j: int| 0 <= j < a.len() ==> s[j] == a[j],
        first[0] >= 0xc2,
        k > 2 ==> first[0] >= 0xe0,
        forall|j: int| 1 <= j < k ==> is_continuation_byte(#[trigger] first[j]),
        0 <= i < a.len(),
        a[i] == '_',
    ensures
        escape_at(s, i),
{
    lemma_all_escaped(first);
    let q = i / 3;
    assert(0 <= q < k);
    lemma_hex_chars(first[q]);
    assert(spells(a, q, first[q]));
    assert(a[3 * q] == '_' && a[3 * q + 1] == hex_char(first[q] as int / 16) && a[3 * q + 2]
        == hex_char(first[q] as int % 16));
    assert(i == 3 * q);
    if a[i + 1] == 'c' && digit(a[i + 2]) {
        if q > 0 {
            assert(is_continuation_byte(first[q]));
            assert(false);
        }
        assert(q == 0);
        assert(k == 2) by {
            if k > 2 {
                assert(first[0] >= 0xe0);
            }
        }
        assert(is_continuation_byte(first[1]));
        lemma_hex_chars(first[1]);
        assert(spells(a, 1, first[1]));
        assert(a[3] == '_' && a[4] == hex_char(first[1] as int / 16));
        assert(a[2] == digit_char(first[0] as int % 16));
    }
}

/// The three characters of byte `j`, where every byte is escaped.
spec fn spells(s: Seq<char>, j: int, b: u8) -> bool {
    s[3 * j] == '_' && s[3 * j + 1] == hex_char(b as int / 16) && s[3 * j + 2] == hex_char(
        b as int % 16,
    )
}

/// Bytes that are all escaped take three characters each.
proof fn lemma_all_escaped(bytes: Seq<u8>)
    requires
        forall|j: int| 0 <= j < bytes.len() ==> #[trigger] bytes[j] >= 0x80,
    ensures
        escaped_bytes(bytes).len() == 3 * bytes.len(),
        forall|j: int| 0 <= j < bytes.len() ==> spells(escaped_bytes(bytes), j, #[trigger] bytes[j]),
        forall|i: int|
            0 <= i < escaped_bytes(bytes).len() && i % 3 != 0 ==> #[trigger] escaped_bytes(bytes)[i]
                != '_',
    decreases bytes.len(),
{
    if bytes.len() > 0 {
        let rest = bytes.drop_first();
        assert forall|j: int| 0 <= j < rest.len() implies #[trigger] rest[j] >= 0x80 by {
            assert(rest[j] == bytes[j + 1]);
        }
        lemma_all_escaped(rest);
        lemma_hex_chars(bytes[0]);
        let s = escaped_bytes(bytes);
        let t = escaped_bytes(rest);
        assert(bytes[0] >= 0x80);
        assert(s == escaped_byte(bytes[0]) + t);
        assert forall|j: int| 0 <= j < bytes.len() implies spells(s, j, #[trigger] bytes[j]) by {
            if j > 0 {
                assert(rest[j - 1] == bytes[j]);
                assert(spells(t, j - 1, rest[j - 1]));
                assert(s[3 * j] == t[3 * (j - 1)]);
                assert(s[3 * j + 1] == t[3 * (j - 1) + 1]);
                assert(s[3 * j + 2] == t[3 * (j - 1) + 2]);
            }
        }
        assert forall|i: int| 0 <= i < s.len() && i % 3 != 0 implies #[trigger] s[i] != '_' by {
            if i >= 3 {
                assert(s[i] == t[i - 3]);
            }
        }
    }
}

/// A text that begins with an escape does not begin with a continuation.
proof fn lemma_first_escape(bytes: Seq<u8>)
    requires
        valid_utf8(bytes),
        escaped_bytes(bytes).len() > 1,
        escaped_bytes(bytes)[0] == '_',
    ensures
        ({
            let c = escaped_bytes(bytes)[1];
            c != '8' && c != '9' && c != 'a' && c != 'b'
        }),
{
    assert(bytes.len() > 0);
    assert(valid_first_scalar(bytes));
    let b0 = bytes[0];
    lemma_hex_chars(b0);
    assert(!plain(b0)) by {
        if plain(b0) {
            assert(escaped_bytes(bytes)[0] == escaped_byte(b0)[0]);
            assert(escaped_byte(b0)[0] == b0 as char);
        }
    }
    assert(escaped_bytes(bytes)[1] == escaped_byte(b0)[1]);
    assert(!is_continuation_byte(b0));
}

// Segments.

/// Two segments of one width that begin one text are one.
proof fn lemma_segment_same(a: Seq<char>, b: Seq<char>, x: Seq<char>, y: Seq<char>)
    requires
        segment(a) + x == segment(b) + y,
        width(a) == width(b),
    ensures
        a == b,
        x == y,
{
    let s = segment(a) + x;
    let w = width(a) as int;
    let na = escaped(a).len();
    let nb = escaped(b).len();
    assert(s.take(w) =~= decimal(na));
    assert(s.take(w) =~= decimal(nb));
    lemma_decimal_injective(na, nb);
    assert(s.subrange(w, w + na) =~= escaped(a));
    assert(s.subrange(w, w + na) =~= escaped(b));
    assert(s.skip(w + na) =~= x);
    assert(s.skip(w + na) =~= y);
    lemma_escaped_injective(encode_utf8(a), encode_utf8(b));
    encode_utf8_decode_utf8(a);
    encode_utf8_decode_utf8(b);
}

/// Where the narrower of two lengths ends, its name begins with a digit.
proof fn lemma_narrow_digit(a: Seq<char>, b: Seq<char>, x: Seq<char>, y: Seq<char>)
    requires
        segment(a) + x == segment(b) + y,
        width(a) < width(b),
        x.len() > 0,
        x[0] == '_',
    ensures
        digit_first(a),
{
    let s = segment(a) + x;
    let w = width(a) as int;
    lemma_decimal(escaped(b).len());
    assert(s[w] == decimal(escaped(b).len())[w]);
    if escaped(a).len() == 0 {
        assert(s[w] == x[0]);
    } else {
        assert(s[w] == escaped(a)[0]);
    }
}

proof fn lemma_segment(a: Seq<char>, b: Seq<char>, x: Seq<char>, y: Seq<char>)
    requires
        segment(a) + x == segment(b) + y,
        told_apart(a, b),
        x.len() > 0,
        x[0] == '_',
        y.len() > 0,
        y[0] == '_',
    ensures
        a == b,
        x == y,
{
    if width(a) < width(b) {
        lemma_narrow_digit(a, b, x, y);
    } else if width(b) < width(a) {
        lemma_narrow_digit(b, a, y, x);
    } else {
        lemma_segment_same(a, b, x, y);
    }
}

/// What follows a class: the kind's letter, the name and the arity.
pub open spec fn tail(kind: Kind, name: Seq<char>, arity: nat) -> Seq<char> {
    "_"@ + seq![kind.sign()] + segment(name) + "_"@ + decimal(arity)
}

proof fn lemma_tail_shape(kind: Kind, name: Seq<char>, arity: nat)
    ensures
        ({
            let t = tail(kind, name, arity);
            let n = escaped(name).len();
            let w = width(name) as int;
            &&& t.len() == 3 + w + n + decimal(arity).len()
            &&& t[0] == '_'
            &&& t[1] == kind.sign()
            &&& t.skip(2) == segment(name) + ("_"@ + decimal(arity))
            &&& t.subrange(2, 2 + w) == decimal(n)
            &&& t.subrange(2 + w, 2 + w + n) == escaped(name)
            &&& t[2 + w + n] == '_'
        }),
{
    reveal_strlit("_");
    let t = tail(kind, name, arity);
    assert(t.skip(2) =~= segment(name) + ("_"@ + decimal(arity)));
    let n = escaped(name).len();
    let w = width(name) as int;
    assert(t.subrange(2, 2 + w) =~= decimal(n));
    assert(t.subrange(2 + w, 2 + w + n) =~= escaped(name));
}

/// The class ends where the kind's letter is: nothing inside an escaped class
/// reads like it.
proof fn lemma_class_width(
    a: Seq<char>,
    b: Seq<char>,
    ka: Kind,
    na: Seq<char>,
    ra: nat,
    kb: Kind,
    nb: Seq<char>,
    rb: nat,
)
    requires
        segment(a) + tail(ka, na, ra) == segment(b) + tail(kb, nb, rb),
    ensures
        width(a) >= width(b),
{
    if width(a) < width(b) {
        let ta = tail(ka, na, ra);
        let x = segment(a) + ta;
        let wa = width(a) as int;
        let wb = width(b) as int;
        let la = escaped(a).len();
        let lb = escaped(b).len();
        lemma_tail_shape(ka, na, ra);
        lemma_tail_shape(kb, nb, rb);
        if la >= lb {
            lemma_decimal_width(lb, la);
        }
        let p = wa + la;
        assert(x[p] == ta[0]);
        lemma_decimal(lb);
        assert(p >= wb) by {
            if p < wb {
                assert(x[p] == decimal(lb)[p]);
                assert(digit(decimal(lb)[p]));
            }
        }
        let i = p - wb;
        let e = escaped(b);
        assert(0 <= i < lb);
        assert(forall|j: int| 0 <= j < lb ==> x[wb + j] == #[trigger] e[j]);
        assert(e[i] == '_');
        encode_utf8_valid_utf8(b);
        lemma_escapes(encode_utf8(b), i);
        assert(e[i + 1] == x[p + 1] && e[i + 2] == x[p + 2]);
        assert(x[p + 1] == ta[1]);
        assert(x[p + 2] == ta[2]);
        let n = escaped(na).len();
        lemma_decimal(n);
        assert(ta[2] == decimal(n)[0]) by {
            assert(ta.subrange(2, 2 + width(na) as int)[0] == ta[2]);
        }
        assert(ka.sign() == 'c');
        assert(digit(ta[2]));
        assert(e[i + 3] == x[p + 3] && e[i + 4] == x[p + 4]);
        assert(x[p + 3] == ta[3]);
        assert(x[p + 4] == ta[4]);
        if n >= 10 {
            assert(ta.subrange(2, 2 + width(na) as int)[1] == ta[3]);
            assert(digit(decimal(n)[1]));
        } else {
            assert(ta[2] == digit_char(n as int));
            assert(n >= 2) by {
                if n == 0 {
                    assert(ta[2] == '0');
                }
                if n == 1 {
                    assert(ta[2] == '1');
                }
            }
            assert(width(na) == 1);
            assert(ta.subrange(3, 3 + n as int)[0] == ta[3]);
            assert(ta.subrange(3, 3 + n as int)[1] == ta[4]);
            encode_utf8_valid_utf8(na);
            lemma_first_escape(encode_utf8(na));
        }
    }
}

/// A member's own segment ends at the last underscore.
proof fn lemma_name_width(a: Seq<char>, b: Seq<char>, ra: nat, rb: nat)
    requires
        segment(a) + ("_"@ + decimal(ra)) == segment(b) + ("_"@ + decimal(rb)),
    ensures
        width(a) >= width(b),
{
    reveal_strlit("_");
    if width(a) < width(b) {
        let x = segment(a) + ("_"@ + decimal(ra));
        let wa = width(a) as int;
        let wb = width(b) as int;
        let la = escaped(a).len();
        let lb = escaped(b).len();
        if la >= lb {
            lemma_decimal_width(lb, la);
        }
        let q = wb + lb;
        assert(x[q] == '_');
        lemma_decimal(ra);
        let k = q - (wa + la) - 1;
        assert(x.len() == wa + la + 1 + decimal(ra).len());
        assert(x.len() == (segment(b) + ("_"@ + decimal(rb))).len());
        assert(0 <= k < decimal(ra).len());
        assert(x[q] == decimal(ra)[k]);
    }
}

/// No two members share a symbol: the language, the module, the class, the
/// kind, the name and the arity can all be read back from it. Where the length
/// of a language's or a module's name takes fewer digits than the other's, the
/// name must not begin with one.
pub proof fn law_symbols_tell_members_apart(
    la: Seq<char>,
    ma: Seq<char>,
    ca: Seq<char>,
    ka: Kind,
    na: Seq<char>,
    ra: nat,
    lb: Seq<char>,
    mb: Seq<char>,
    cb: Seq<char>,
    kb: Kind,
    nb: Seq<char>,
    rb: nat,
)
    requires
        told_apart(la, lb),
        told_apart(ma, mb),
        symbol_text(la, ma, ca, ka, na, ra) == symbol_text(lb, mb, cb, kb, nb, rb),
    ensures
        la == lb,
        ma == mb,
        ca == cb,
        ka == kb,
        na == nb,
        ra == rb,
{
    reveal_strlit("_");
    let ta = tail(ka, na, ra);
    let tb = tail(kb, nb, rb);
    let xa = segment(ca) + ta;
    let xb = segment(cb) + tb;
    let ya = segment(ma) + ("_"@ + xa);
    let yb = segment(mb) + ("_"@ + xb);
    let za = segment(la) + ("_"@ + ya);
    let zb = segment(lb) + ("_"@ + yb);
    lemma_symbol_shape(la, ma, ca, ka, na, ra);
    lemma_symbol_shape(lb, mb, cb, kb, nb, rb);
    assert(symbol_text(la, ma, ca, ka, na, ra).skip("caribou_"@.len() as int) == za);
    assert(za == zb);
    lemma_segment(la, lb, "_"@ + ya, "_"@ + yb);
    assert(("_"@ + ya).skip(1) =~= ya);
    assert(("_"@ + yb).skip(1) =~= yb);
    lemma_segment(ma, mb, "_"@ + xa, "_"@ + xb);
    assert(("_"@ + xa).skip(1) =~= xa);
    assert(("_"@ + xb).skip(1) =~= xb);
    lemma_class_width(ca, cb, ka, na, ra, kb, nb, rb);
    lemma_class_width(cb, ca, kb, nb, rb, ka, na, ra);
    lemma_segment_same(ca, cb, ta, tb);
    lemma_tail_shape(ka, na, ra);
    lemma_tail_shape(kb, nb, rb);
    assert(ka == kb) by {
        assert(ta[1] == tb[1]);
    }
    let ua = "_"@ + decimal(ra);
    let ub = "_"@ + decimal(rb);
    assert(segment(na) + ua == segment(nb) + ub);
    lemma_name_width(na, nb, ra, rb);
    lemma_name_width(nb, na, rb, ra);
    lemma_segment_same(na, nb, ua, ub);
    assert(ua.skip(1) =~= decimal(ra));
    assert(ub.skip(1) =~= decimal(rb));
    lemma_decimal_injective(ra, rb);
}

proof fn lemma_symbol_shape(
    l: Seq<char>,
    m: Seq<char>,
    c: Seq<char>,
    k: Kind,
    n: Seq<char>,
    r: nat,
)
    ensures
        symbol_text(l, m, c, k, n, r).skip("caribou_"@.len() as int) == segment(l) + ("_"@ + (
        segment(m) + ("_"@ + (segment(c) + tail(k, n, r))))),
{
    reveal_strlit("_");
    reveal_strlit("caribou");
    reveal_strlit("caribou_");
    let head = "caribou"@ + "_"@;
    let u = "_"@;
    let t = tail(k, n, r);
    let s = symbol_text(l, m, c, k, n, r);
    lemma_join(head, segment(l), u, segment(m), u, segment(c), u, seq![k.sign()], segment(n), u, decimal(r));
    assert(head.len() == 8);
    let rest = segment(l) + (u + (segment(m) + (u + (segment(c) + t))));
    assert((head + rest).skip(8) =~= rest);
}

proof fn lemma_two(a: Seq<char>, b: Seq<char>, c: Seq<char>)
    ensures
        a + b + c == a + (b + c),
{
    assert(a + b + c =~= a + (b + c));
}

proof fn lemma_join(
    h: Seq<char>,
    a: Seq<char>,
    b: Seq<char>,
    c: Seq<char>,
    d: Seq<char>,
    e: Seq<char>,
    f: Seq<char>,
    g: Seq<char>,
    i: Seq<char>,
    j: Seq<char>,
    k: Seq<char>,
)
    ensures
        h + a + b + c + d + e + f + g + i + j + k == h + (a + (b + (c + (d + (e + (f + g + i + j
            + k)))))),
{
    let t = f + g + i + j + k;
    lemma_two(h + a + b + c + d + e + f + g + i, j, k);
    lemma_two(h + a + b + c + d + e + f + g, i, j + k);
    lemma_two(h + a + b + c + d + e + f, g, i + (j + k));
    lemma_two(h + a + b + c + d + e, f, g + (i + (j + k)));
    lemma_two(f + g + i, j, k);
    lemma_two(f + g, i, j + k);
    lemma_two(f, g, i + (j + k));
    lemma_two(h + a + b + c + d, e, t);
    lemma_two(h + a + b + c, d, e + t);
    lemma_two(h + a + b, c, d + (e + t));
    lemma_two(h + a, b, c + (d + (e + t)));
    lemma_two(h, a, b + (c + (d + (e + t))));
}

} // verus!
