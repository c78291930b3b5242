use vstd::prelude::*;

verus! {

/// One step of the Park-Miller (MINSTD) generator: the state times 48271, as a
/// 32-bit signed multiply that wraps.
pub open spec fn lcg_step(seed: i32) -> i32 {
    vstd::wrapping::i32_specs::wrapping_mul(48271, seed)
}

/// The state after `n` steps from `seed`.
pub open spec fn lcg_iter(seed: i32, n: nat) -> i32
    decreases n,
{
    if n == 0 {
        seed
    } else {
        lcg_step(lcg_iter(seed, (n - 1) as nat))
    }
}

/// The numerator that a state yields: its low 31 bits, that is the state
/// taken modulo 2^31. The drawn value is this numerator divided by 2^31.
pub open spec fn draw_of(state: i32) -> u32 {
    ((state as int) % 0x8000_0000) as u32
}

/// The numerators of the `n` draws that follow state `seed`, in order.
pub open spec fn draws_from(seed: i32, n: nat) -> Seq<u32> {
    Seq::new(n, |k: int| draw_of(lcg_iter(seed, (k + 1) as nat)))
}

/// The seeded generator whose draws drive every random offset.
pub struct Random {
    pub seed: i32,
}

impl Random {
    /// Advances the state by one step and returns the numerator of the next
    /// draw; the value in `[0, 1)` that the draw stands for is the result
    /// divided by 2^31.
    pub fn next(&mut self) -> (r: u32)
        ensures
            final(self).seed == lcg_step(old(self).seed),
            r == draw_of(final(self).seed),
            r < 0x8000_0000,
    {
        self.seed = 48271i32.wrapping_mul(self.seed);
        let masked: i32 = self.seed & 0x7FFF_FFFF;
        proof {
            lemma_mask_is_mod(self.seed);
        }
        masked as u32
    }

    /// Takes the next `n` draws, in order (the numerators, as `next` returns them).
    pub fn take(&mut self, n: usize) -> (r: Vec<u32>)
        ensures
            r@ == draws_from(old(self).seed, n as nat),
            final(self).seed == lcg_iter(old(self).seed, n as nat),
    {
        let ghost start = self.seed;
        let mut out: Vec<u32> = Vec::new();
        let mut i: usize = 0;
        while i < n
            invariant
                i <= n,
                self.seed == lcg_iter(start, i as nat),
                out@ == draws_from(start, i as nat),
            decreases n - i,
        {
            let d = self.next();
            out.push(d);
            i += 1;
            assert(out@ =~= draws_from(start, i as nat));
        }
        out
    }
}

proof fn lemma_mask_is_mod(s: i32)
    ensures
        (s & 0x7FFF_FFFF) as int == (s as int) % 0x8000_0000,
        0 <= (s & 0x7FFF_FFFF) < 0x8000_0000,
{
    assert(0 <= (s & 0x7FFF_FFFFi32) < 0x8000_0000) by (bit_vector);
    if s >= 0 {
        assert(s >= 0 ==> (s & 0x7FFF_FFFFi32) == s) by (bit_vector);
    } else {
        assert(s < 0 ==> (s & 0x7FFF_FFFFi32) == s + 0x8000_0000i64) by (bit_vector);
    }
}

/// Stepping `a + b` times is stepping `a` times, then `b` times.
pub proof fn lcg_iter_adds(seed: i32, a: nat, b: nat)
    ensures
        lcg_iter(seed, a + b) == lcg_iter(lcg_iter(seed, a), b),
    decreases b,
{
    if b > 0 {
        lcg_iter_adds(seed, a, (b - 1) as nat);
        assert(lcg_iter(seed, a + b) == lcg_step(lcg_iter(seed, (a + b - 1) as nat)));
    }
}

/// One stream shared by consecutive shapes: the `a + b` draws that follow a state
/// are the `a` draws that follow it, then the `b` draws that follow the state
/// reached after those `a`.
pub proof fn draws_split(seed: i32, a: nat, b: nat)
    ensures
        draws_from(seed, a + b) == draws_from(seed, a) + draws_from(lcg_iter(seed, a), b),
{
    let whole = draws_from(seed, a + b);
    let parts = draws_from(seed, a) + draws_from(lcg_iter(seed, a), b);
    assert forall|k: int| 0 <= k < a + b implies #[trigger] whole[k] == parts[k] by {
        if k >= a {
            lcg_iter_adds(seed, a, (k - a + 1) as nat);
            assert((a + (k - a + 1)) as nat == (k + 1) as nat);
        }
    }
    assert(whole =~= parts);
}

/// A step multiplies by 48271 modulo 2^32: the new state and `48271 * seed`
/// differ by a multiple of 2^32.
pub proof fn step_is_multiplication_mod_2_32(seed: i32)
    ensures
        (lcg_step(seed) - 48271 * seed) % 0x1_0000_0000 == 0,
        i32::MIN <= lcg_step(seed) <= i32::MAX,
{
    let x = 48271 * seed;
    let r = 0x1_0000_0000int;
    vstd::arithmetic::div_mod::lemma_fundamental_div_mod(x, r);
    vstd::arithmetic::div_mod::lemma_mod_multiples_basic(-(x / r), r);
    vstd::arithmetic::div_mod::lemma_mod_multiples_basic(-(x / r) - 1, r);
    assert(x % r - x == -(x / r) * r);
    assert(x % r - r - x == (-(x / r) - 1) * r);
}

/// The numerator of a draw is the state's residue modulo 2^31: it is below 2^31
/// and differs from the state by a multiple of 2^31.
pub proof fn draw_is_residue_mod_2_31(state: i32)
    ensures
        draw_of(state) < 0x8000_0000,
        (draw_of(state) - state) % 0x8000_0000 == 0,
{
    let x = state as int;
    let r = 0x8000_0000int;
    vstd::arithmetic::div_mod::lemma_fundamental_div_mod(x, r);
    vstd::arithmetic::div_mod::lemma_mod_multiples_basic(-(x / r), r);
    assert(x % r - x == -(x / r) * r);
}

/// A zero seed is a fixed point: every later state is zero, so every draw is zero.
pub proof fn zero_seed_stays_zero(n: nat)
    ensures
        lcg_iter(0, n) == 0,
        draw_of(lcg_iter(0, n)) == 0,
    decreases n,
{
    if n > 0 {
        zero_seed_stays_zero((n - 1) as nat);
    }
}

/// A non-zero state never steps to zero: the multiplier is odd, so the step is a
/// bijection on 32-bit words that fixes zero.
pub proof fn nonzero_step_is_nonzero(s: i32)
    requires
        s != 0,
    ensures
        lcg_step(s) != 0,
{
    assert(s != 0i32 ==> vstd::wrapping::i32_specs::wrapping_mul(48271i32, s) != 0i32) by (bit_vector);
}

/// Starting from a non-zero seed, no later state is zero, so the generator never
/// falls into the degenerate all-zero stream.
pub proof fn nonzero_seed_stays_nonzero(seed: i32, n: nat)
    requires
        seed != 0,
    ensures
        lcg_iter(seed, n) != 0,
    decreases n,
{
    if n > 0 {
        nonzero_seed_stays_nonzero(seed, (n - 1) as nat);
        nonzero_step_is_nonzero(lcg_iter(seed, (n - 1) as nat));
    }
}

} // verus!
