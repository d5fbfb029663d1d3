//! Pseudo-random bytes for test data, from a 64-bit xorshift generator.
//!
//! The generator is the 13-7-17 shift register of Marsaglia. It is fast
//! and simple, and of no use where unpredictability matters.

use vstd::prelude::*;

verus! {

/// The bits of the state from which a number is drawn: the low 53.
pub const MANTISSA_MASK: u64 = 0x1F_FFFF_FFFF_FFFF;

/// The state that follows `seed`.
pub open spec fn next_state(seed: u64) -> u64 {
    let a = seed ^ (seed << 13);
    let b = a ^ (a >> 7);
    b ^ (b << 17)
}

/// The state reached from `seed` in `steps` steps.
pub open spec fn state_after(seed: u64, steps: nat) -> u64
    decreases steps,
{
    if steps == 0 {
        seed
    } else {
        next_state(state_after(seed, (steps - 1) as nat))
    }
}

/// The number drawn from a state: its low 53 bits.
pub open spec fn number_of(state: u64) -> u64 {
    state & MANTISSA_MASK
}

/// The byte drawn from a state: the top eight of its low 53 bits.
pub open spec fn byte_of(state: u64) -> u8 {
    (number_of(state) >> 45) as u8
}

/// The bytes drawn in `size` steps from `seed`.
pub open spec fn bytes_from(seed: u64, size: nat) -> Seq<u8> {
    Seq::new(size, |i: int| byte_of(state_after(seed, (i + 1) as nat)))
}

/// Moves the generator one step on and draws a number of 53 bits from its
/// new state.
pub fn ranbits(seed: &mut u64) -> (m: u64)
    ensures
        *final(seed) == next_state(*old(seed)),
        m == number_of(*final(seed)),
{
    let mut s: u64 = *seed;
    s ^= s << 13;
    s ^= s >> 7;
    s ^= s << 17;
    *seed = s;
    s & MANTISSA_MASK
}

/// Moves the generator one step on and draws a byte from its new state.
pub fn ranu8(seed: &mut u64) -> (b: u8)
    ensures
        *final(seed) == next_state(*old(seed)),
        b == byte_of(*final(seed)),
{
    let m = ranbits(seed);
    let ghost state = *seed;
    assert((state & 0x1F_FFFF_FFFF_FFFF) >> 45 < 256) by (bit_vector);
    (m >> 45) as u8
}

/// A vector of `size` pseudo-random bytes. The seed is moved on by `size`
/// steps, so that the next call continues the sequence.
pub fn ranvu8(size: usize, seed: &mut u64) -> (r: Vec<u8>)
    requires
        size > 0,
    ensures
        r@ == bytes_from(*old(seed), size as nat),
        *final(seed) == state_after(*old(seed), size as nat),
{
    let mut r: Vec<u8> = Vec::with_capacity(size);
    let mut i: usize = 0;
    while i < size
        invariant
            i <= size,
            r@ == bytes_from(*old(seed), i as nat),
            *seed == state_after(*old(seed), i as nat),
        decreases size - i,
    {
        let b = ranu8(seed);
        r.push(b);
        i += 1;
        assert(r@ =~= bytes_from(*old(seed), i as nat));
    }
    r
}

/// `n` vectors of `d` pseudo-random bytes each, drawn one after the other
/// from the same sequence.
pub fn ranvvu8(d: usize, n: usize, seed: &mut u64) -> (r: Vec<Vec<u8>>)
    requires
        d > 0,
        n > 0,
    ensures
        r@.len() == n,
        forall|k: int|
            0 <= k < n ==> (#[trigger] r@[k])@ == bytes_from(
                state_after(*old(seed), (k * d) as nat),
                d as nat,
            ),
        *final(seed) == state_after(*old(seed), (n * d) as nat),
{
    let mut r: Vec<Vec<u8>> = Vec::with_capacity(n);
    let mut k: usize = 0;
    while k < n
        invariant
            k <= n,
            d > 0,
            r@.len() == k,
            forall|j: int|
                0 <= j < k ==> (#[trigger] r@[j])@ == bytes_from(
                    state_after(*old(seed), (j * d) as nat),
                    d as nat,
                ),
            *seed == state_after(*old(seed), (k * d) as nat),
        decreases n - k,
    {
        let ghost here = *seed;
        let row = ranvu8(d, seed);
        proof {
            lemma_state_after_sum(*old(seed), (k * d) as nat, d as nat);
            assert((k + 1) * d == k * d + d) by (nonlinear_arith);
            assert(k * d >= 0) by (nonlinear_arith)
                requires
                    k >= 0,
                    d >= 0,
            ;
        }
        r.push(row);
        k += 1;
    }
    r
}

/// Moving on by `a` steps and then by `b` steps is moving on by `a + b`.
pub proof fn lemma_state_after_sum(seed: u64, a: nat, b: nat)
    ensures
        state_after(state_after(seed, a), b) == state_after(seed, a + b),
    decreases b,
{
    if b > 0 {
        lemma_state_after_sum(seed, a, (b - 1) as nat);
        assert(a + b - 1 == a + (b - 1) as nat);
    }
}

} // verus!
