//! Numbers that stand for integers: what a double's bits say of the whole
//! number it is, if it is one.

use vstd::arithmetic::power2::{lemma_pow2_adds, lemma_pow2_pos, lemma_pow2_unfold, pow2};
use vstd::prelude::*;

verus! {

/// The bits of a double below its exponent: 2^52.
pub const FRACTION: u64 = 4503599627370496;

/// The sign bit: 2^63.
pub const SIGN: u64 = 9223372036854775808;

pub open spec fn exponent(bits: u64) -> int {
    (bits as int / FRACTION as int) % 2048
}

pub open spec fn fraction(bits: u64) -> int {
    bits as int % FRACTION as int
}

/// The integer a finite double's magnitude is a power of two times.
pub open spec fn significand(bits: u64) -> int {
    if exponent(bits) == 0 {
        fraction(bits)
    } else {
        fraction(bits) + FRACTION
    }
}

/// That power of two.
pub open spec fn scale(bits: u64) -> int {
    if exponent(bits) == 0 {
        -1074
    } else {
        exponent(bits) - 1075
    }
}

/// The magnitude of a double that is finite and whole.
pub open spec fn magnitude(bits: u64) -> Option<int> {
    if exponent(bits) == 2047 {
        None
    } else if scale(bits) >= 0 {
        Some(significand(bits) * pow2(scale(bits) as nat))
    } else if significand(bits) % pow2((-scale(bits)) as nat) as int == 0 {
        Some(significand(bits) / pow2((-scale(bits)) as nat) as int)
    } else {
        None
    }
}

/// The integer a double is, if it is one.
pub open spec fn integer(bits: u64) -> Option<int> {
    match magnitude(bits) {
        Some(m) => Some(
            if bits < SIGN {
                m
            } else {
                -m
            },
        ),
        None => None,
    }
}

/// A magnitude, as far as a word holds it.
#[derive(Clone, Copy, Debug, PartialEq, Eq, Structural)]
pub enum Whole {
    /// Not whole, or not finite.
    Not,
    Word(u64),
    /// Larger than any word.
    More,
}

pub open spec fn is_whole(w: Whole, m: Option<int>) -> bool {
    match w {
        Whole::Not => m is None,
        Whole::Word(n) => m == Some(n as int),
        Whole::More => m matches Some(x) && x > u64::MAX,
    }
}

proof fn lemma_odd(m: int, k: nat, e: nat)
    requires
        m % 2 == 1,
        k < e,
    ensures
        (m * pow2(k)) % pow2(e) as int != 0,
{
    let p = pow2(k) as int;
    let q = pow2((e - k) as nat) as int;
    lemma_pow2_adds(k, (e - k) as nat);
    lemma_pow2_pos(k);
    lemma_pow2_pos(e);
    let h = pow2((e - k - 1) as nat) as int;
    lemma_pow2_unfold((e - k) as nat);
    let d = (m * p) / (pow2(e) as int);
    if (m * p) % pow2(e) as int == 0 {
        vstd::arithmetic::div_mod::lemma_fundamental_div_mod(m * p, pow2(e) as int);
        assert(m == (q * d)) by (nonlinear_arith)
            requires
                m * p == (p * q) * d,
                p > 0,
        ;
        assert(m == 2 * (h * d)) by (nonlinear_arith)
            requires
                m == q * d,
                q == 2 * h,
        ;
    }
}

/// The magnitude of a finite double.
pub fn whole_magnitude(bits: u64) -> (w: Whole)
    ensures
        is_whole(w, magnitude(bits)),
{
    let exp: u64 = (bits / FRACTION) % 2048;
    let frac: u64 = bits % FRACTION;
    if exp == 2047 {
        return Whole::Not;
    }
    let mut m: u64 = if exp == 0 {
        frac
    } else {
        frac + FRACTION
    };
    let ghost all = m as int;
    assert(all == significand(bits));
    if exp >= 1075 {
        let e: u64 = exp - 1075;
        assert(e == scale(bits));
        if e >= 12 {
            proof {
                lemma_pow2_adds(12, (e - 12) as nat);
                lemma_pow2_pos((e - 12) as nat);
                lemma_pow2_12();
                let p = pow2((e - 12) as nat) as int;
                assert(all * (4096 * p) > u64::MAX) by (nonlinear_arith)
                    requires
                        all >= 4503599627370496,
                        p >= 1,
                ;
            }
            return Whole::More;
        }
        let mut k: u64 = 0;
        proof {
            lemma_pow2_0();
        }
        while k < e
            invariant
                k <= e,
                e < 12,
                0 <= all < 9007199254740992,
                m == all * pow2(k as nat),
            decreases e - k,
        {
            proof {
                lemma_pow2_unfold((k + 1) as nat);
                lemma_pow2_at_most(k as nat);
                let p = pow2(k as nat) as int;
                assert(2 * (all * p) == all * (2 * p)) by (nonlinear_arith);
                assert(2 * m <= u64::MAX) by (nonlinear_arith)
                    requires
                        m == all * p,
                        0 <= p <= 1024,
                        0 <= all < 9007199254740992,
                ;
            }
            m = 2 * m;
            k = k + 1;
        }
        return Whole::Word(m);
    }
    let e: u64 = if exp == 0 {
        1074
    } else {
        1075 - exp
    };
    assert(e == -scale(bits));
    let mut k: u64 = 0;
    proof {
        lemma_pow2_0();
        lemma_pow2_pos(e as nat);
    }
    while k < e
        invariant
            k <= e,
            exp != 2047,
            exp == exponent(bits),
            e == -scale(bits),
            e > 0,
            all == significand(bits),
            pow2(e as nat) > 0,
            all == m * pow2(k as nat),
        decreases e - k,
    {
        if m % 2 == 1 {
            proof {
                lemma_odd(m as int, k as nat, e as nat);
            }
            return Whole::Not;
        }
        proof {
            lemma_pow2_unfold((k + 1) as nat);
            let p = pow2(k as nat) as int;
            let h = (m / 2) as int;
            assert(m * p == h * (2 * p)) by (nonlinear_arith)
                requires
                    m == 2 * h,
            ;
        }
        m = m / 2;
        k = k + 1;
    }
    proof {
        vstd::arithmetic::div_mod::lemma_fundamental_div_mod_converse(
            all,
            pow2(e as nat) as int,
            m as int,
            0,
        );
    }
    Whole::Word(m)
}

proof fn lemma_pow2_0()
    ensures
        pow2(0) == 1,
{
    vstd::arithmetic::power2::lemma2_to64();
}

proof fn lemma_pow2_12()
    ensures
        pow2(12) == 4096,
{
    vstd::arithmetic::power2::lemma2_to64();
}

proof fn lemma_pow2_at_most(k: nat)
    requires
        k < 11,
    ensures
        pow2(k) <= 1024,
{
    vstd::arithmetic::power2::lemma2_to64();
}

/// The integer a double is, if it is one and fits.
pub fn integer_of(bits: u64) -> (r: Option<i64>)
    ensures
        r == match integer(bits) {
            Some(n) => if i64::MIN <= n <= i64::MAX {
                Some(n as i64)
            } else {
                None
            },
            None => None,
        },
{
    match whole_magnitude(bits) {
        Whole::Word(m) => {
            if bits < SIGN {
                if m < SIGN {
                    Some(m as i64)
                } else {
                    None
                }
            } else if m < SIGN {
                Some(0 - m as i64)
            } else if m == SIGN {
                Some(i64::MIN)
            } else {
                None
            }
        },
        _ => None,
    }
}

/// The place a double names: whole, not negative, and held to what a place can
/// be.
pub open spec fn place(bits: u64) -> Option<usize> {
    match integer(bits) {
        Some(n) => if n < 0 {
            None
        } else if n > usize::MAX {
            Some(usize::MAX)
        } else {
            Some(n as usize)
        },
        None => None,
    }
}

/// [`place`].
pub fn place_of(bits: u64) -> (r: Option<usize>)
    ensures
        r == place(bits),
{
    match whole_magnitude(bits) {
        Whole::Not => None,
        Whole::Word(m) => {
            if bits >= SIGN && m != 0 {
                None
            } else if m > usize::MAX as u64 {
                Some(usize::MAX)
            } else {
                Some(m as usize)
            }
        },
        Whole::More => {
            if bits >= SIGN {
                None
            } else {
                Some(usize::MAX)
            }
        },
    }
}

/// The bits of the double that is `n`.
pub fn bits_of(n: u64) -> (bits: u64)
    requires
        n <= 9007199254740992,
    ensures
        integer(bits) == Some(n as int),
        bits < SIGN,
{
    proof {
        vstd::arithmetic::power2::lemma2_to64();
    }
    if n == 0 {
        assert(significand(0) == 0);
        assert(0int % pow2(1074) as int == 0) by {
            lemma_pow2_pos(1074);
        }
        assert(0int / pow2(1074) as int == 0) by {
            lemma_pow2_pos(1074);
        }
        return 0;
    }
    if n == 9007199254740992 {
        let bits: u64 = 1076 * FRACTION;
        assert(exponent(bits) == 1076);
        assert(fraction(bits) == 0);
        assert(significand(bits) * pow2(1) == 9007199254740992);
        return bits;
    }
    // The significand is `n` moved up to fill its bits.
    let mut m: u64 = n;
    let mut up: u64 = 0;
    while m < FRACTION
        invariant
            0 < n < 9007199254740992,
            up <= 52,
            m == n * pow2(up as nat),
            0 < m < 9007199254740992,
            up == 52 ==> m >= FRACTION,
        decreases 53 - up,
    {
        proof {
            lemma_pow2_unfold((up + 1) as nat);
            let p = pow2(up as nat) as int;
            assert(2 * (n * p) == n * (2 * p)) by (nonlinear_arith);
            if up == 51 {
                vstd::arithmetic::power2::lemma2_to64_rest();
                assert(n * (2 * p) >= 4503599627370496) by (nonlinear_arith)
                    requires
                        2 * p == 4503599627370496,
                        n >= 1,
                ;
            }
        }
        m = 2 * m;
        up = up + 1;
    }
    let exp: u64 = 1075 - up;
    let bits: u64 = exp * FRACTION + (m - FRACTION);
    proof {
        assert(bits as int / FRACTION as int == exp);
        assert(bits as int % FRACTION as int == m - FRACTION);
        assert(exponent(bits) == exp);
        assert(significand(bits) == m);
        assert(bits < SIGN);
        if up > 0 {
            lemma_pow2_pos(up as nat);
            vstd::arithmetic::div_mod::lemma_fundamental_div_mod_converse(
                m as int,
                pow2(up as nat) as int,
                n as int,
                0,
            );
            assert((-scale(bits)) == up);
        } else {
            assert(scale(bits) == 0);
        }
    }
    bits
}

} // verus!
