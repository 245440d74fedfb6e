//! A hasher for maps keyed by an address, which the protocols consult per
//! call: one multiply, since the keys are already well spread and the default
//! hasher's resistance to crafted keys buys nothing here.

use vstd::arithmetic::div_mod::{lemma_mul_mod_noop_left, lemma_mul_mod_noop_right, lemma_small_mod};
use vstd::prelude::*;

verus! {

/// An odd number with its bits well spread: the golden ratio in 64 bits.
pub const MULTIPLIER: u64 = 0x9E37_79B9_7F4A_7C15;

/// Hashes one `usize` by multiplication; other writes fold in the same way.
#[derive(Clone, Copy, Debug)]
pub struct AddressHasher {
    pub state: u64,
}

/// One word folded into a state.
pub open spec fn folded(state: u64, n: u64) -> u64 {
    ((state ^ n) * 0x9E37_79B9_7F4A_7C15int % 0x1_0000_0000_0000_0000int) as u64
}

/// Bytes folded in one after another.
pub open spec fn folded_bytes(state: u64, bytes: Seq<u8>) -> u64
    decreases bytes.len(),
{
    if bytes.len() == 0 {
        state
    } else {
        folded(folded_bytes(state, bytes.drop_last()), bytes.last() as u64)
    }
}

/// `n` rotated right by 26: the high bits carry the mix, and a table indexes
/// by the low ones.
pub open spec fn rotated(n: u64) -> u64 {
    (n >> 26) | (n << 38)
}

impl AddressHasher {
    pub fn new() -> (h: AddressHasher)
        ensures
            h.state == 0,
    {
        AddressHasher { state: 0 }
    }

    pub fn finish(&self) -> (r: u64)
        ensures
            r == rotated(self.state),
    {
        (self.state >> 26) | (self.state << 38)
    }

    pub fn write(&mut self, bytes: &[u8])
        ensures
            final(self).state == folded_bytes(old(self).state, bytes@),
    {
        let mut i: usize = 0;
        assert(bytes@.take(0) =~= Seq::<u8>::empty());
        while i < bytes.len()
            invariant
                i <= bytes.len(),
                self.state == folded_bytes(old(self).state, bytes@.take(i as int)),
            decreases bytes.len() - i,
        {
            assert(bytes@.take(i + 1).drop_last() =~= bytes@.take(i as int));
            self.write_u64(bytes[i] as u64);
            i = i + 1;
        }
        assert(bytes@.take(i as int) =~= bytes@);
    }

    pub fn write_u64(&mut self, n: u64)
        ensures
            final(self).state == folded(old(self).state, n),
    {
        self.state = (self.state ^ n).wrapping_mul(MULTIPLIER);
    }

    pub fn write_usize(&mut self, n: usize)
        ensures
            final(self).state == folded(old(self).state, n as u64),
    {
        self.write_u64(n as u64);
    }

    pub fn write_u32(&mut self, n: u32)
        ensures
            final(self).state == folded(old(self).state, n as u64),
    {
        self.write_u64(n as u64);
    }
}

proof fn lemma_multiply_undone(x: u64)
    ensures
        (x * 0x9E37_79B9_7F4A_7C15int % 0x1_0000_0000_0000_0000int) * 0xF1DE_83E1_9937_733Dint
            % 0x1_0000_0000_0000_0000int == x,
{
    let m = 0x1_0000_0000_0000_0000int;
    let k = 0x9E37_79B9_7F4A_7C15int;
    let i = 0xF1DE_83E1_9937_733Dint;
    lemma_mul_mod_noop_left(x * k, i, m);
    assert((x * k) * i == x * (k * i)) by (nonlinear_arith);
    assert(k * i % m == 1);
    lemma_mul_mod_noop_right(x as int, k * i, m);
    lemma_small_mod(x as nat, m as nat);
}

/// Two addresses never share a hash: the fold of one word and the rotation
/// lose nothing.
pub proof fn law_addresses_hash_apart(state: u64, a: u64, b: u64)
    requires
        rotated(folded(state, a)) == rotated(folded(state, b)),
    ensures
        a == b,
{
    let x = folded(state, a);
    let y = folded(state, b);
    assert((x >> 26) | (x << 38) == (y >> 26) | (y << 38) ==> x == y) by (bit_vector);
    lemma_multiply_undone(state ^ a);
    lemma_multiply_undone(state ^ b);
    assert(state ^ a == state ^ b ==> a == b) by (bit_vector);
}

} // verus!
