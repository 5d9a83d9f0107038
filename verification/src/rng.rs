//! A tiny, fully deterministic pseudo-random number generator.
//!
//! The client and the server must produce bit-for-bit identical sequences from
//! the same seed, so the generator is self-contained and uses only wrapping
//! integer arithmetic: SplitMix64 expands the seed into 256 bits of state, which
//! then drive xoshiro256**.
use vstd::prelude::*;

verus! {

/// The SplitMix64 increment (the golden-ratio constant).
pub const GOLDEN_GAMMA: u64 = 0x9E3779B97F4A7C15;

/// Upper bound on the number of redraws `below` performs before accepting its
/// last candidate. No realistic run comes anywhere near it.
pub const MAX_REDRAWS: u64 = 0xFFFF_FFFF_FFFF_FFFF;

/// The SplitMix64 output mix applied to an already-advanced counter value.
pub open spec fn spec_mix64(z: u64) -> u64 {
    let z1 = (z ^ (z >> 30u64)).wrapping_mul(0xBF58476D1CE4E5B9u64);
    let z2 = (z1 ^ (z1 >> 27u64)).wrapping_mul(0x94D049BB133111EBu64);
    z2 ^ (z2 >> 31u64)
}

/// An xor with a right shift of itself loses nothing.
proof fn lemma_xorshift_injective(a: u64, b: u64)
    ensures
        (a ^ (a >> 30u64)) == (b ^ (b >> 30u64)) ==> a == b,
        (a ^ (a >> 27u64)) == (b ^ (b >> 27u64)) ==> a == b,
        (a ^ (a >> 31u64)) == (b ^ (b >> 31u64)) ==> a == b,
{
    assert((a ^ (a >> 30u64)) == (b ^ (b >> 30u64)) ==> a == b) by (bit_vector);
    assert((a ^ (a >> 27u64)) == (b ^ (b >> 27u64)) ==> a == b) by (bit_vector);
    assert((a ^ (a >> 31u64)) == (b ^ (b >> 31u64)) ==> a == b) by (bit_vector);
}

/// Multiplying by a constant `c` with an inverse `ci` modulo 2^64
/// (`c * ci == 1 + k * 2^64`) loses nothing.
proof fn lemma_mul_injective(a: u64, b: u64, c: int, ci: int, k: int)
    requires
        c * ci == 1 + k * 0x1_0000_0000_0000_0000,
    ensures
        (a * c) % 0x1_0000_0000_0000_0000 == (b * c) % 0x1_0000_0000_0000_0000 ==> a == b,
{
    let m: int = 0x1_0000_0000_0000_0000;
    assert forall|x: u64| (#[trigger] ((x * c) % m)) * ci % m == x by {
        vstd::arithmetic::div_mod::lemma_mul_mod_noop_left(x * c, ci, m);
        vstd::arithmetic::mul::lemma_mul_is_associative(x as int, c, ci);
        assert(x * (c * ci) == x + (x * k) * m) by (nonlinear_arith)
            requires
                c * ci == 1 + k * m,
        ;
        vstd::arithmetic::div_mod::lemma_mod_multiples_vanish(x * k, x as int, m);
        assert((m * (x * k) + x) % m == (x as int) % m);
        assert((x as int) % m == x);
    }
    assert(((a * c) % m) * ci % m == a);
    assert(((b * c) % m) * ci % m == b);
}

/// The SplitMix64 output mix never maps two inputs to one output.
pub proof fn lemma_mix64_injective(a: u64, b: u64)
    ensures
        spec_mix64(a) == spec_mix64(b) ==> a == b,
{
    let c1: int = 0xBF58476D1CE4E5B9;
    let c2: int = 0x94D049BB133111EB;
    let a1 = a ^ (a >> 30u64);
    let b1 = b ^ (b >> 30u64);
    let a2 = ((a1 as nat * c1 as nat) % 0x1_0000_0000_0000_0000) as u64;
    let b2 = ((b1 as nat * c1 as nat) % 0x1_0000_0000_0000_0000) as u64;
    let a3 = a2 ^ (a2 >> 27u64);
    let b3 = b2 ^ (b2 >> 27u64);
    let a4 = ((a3 as nat * c2 as nat) % 0x1_0000_0000_0000_0000) as u64;
    let b4 = ((b3 as nat * c2 as nat) % 0x1_0000_0000_0000_0000) as u64;
    assert(spec_mix64(a) == a4 ^ (a4 >> 31u64));
    assert(spec_mix64(b) == b4 ^ (b4 >> 31u64));
    lemma_xorshift_injective(a4, b4);
    lemma_mul_injective(a3, b3, c2, 0x319642b2d24d8ec3, 2077064247507883091);
    lemma_xorshift_injective(a2, b2);
    lemma_mul_injective(a1, b1, c1, 0x96de1b173f119089, 8125545580553827436);
    lemma_xorshift_injective(a, b);
}

/// The `k`-th SplitMix64 counter value after `seed` (`k >= 1`), i.e. `seed + k * gamma`
/// modulo 2^64.
pub open spec fn spec_counter(seed: u64, k: nat) -> u64
    decreases k,
{
    if k == 0 {
        seed
    } else {
        spec_counter(seed, (k - 1) as nat).wrapping_add(GOLDEN_GAMMA)
    }
}

/// The four state words that a seed expands into.
pub open spec fn spec_seed_state(seed: u64) -> Seq<u64> {
    seq![
        spec_mix64(spec_counter(seed, 1)),
        spec_mix64(spec_counter(seed, 2)),
        spec_mix64(spec_counter(seed, 3)),
        spec_mix64(spec_counter(seed, 4)),
    ]
}

/// Rotate a 64-bit word left by `k` bits, `0 < k < 64`.
pub open spec fn spec_rotl(x: u64, k: u64) -> u64 {
    (x << k) | (x >> ((64 - k) as u64))
}

/// The xoshiro256** output for a state.
pub open spec fn spec_output(s: Seq<u64>) -> u64 {
    spec_rotl(s[1].wrapping_mul(5u64), 7u64).wrapping_mul(9u64)
}

/// The xoshiro256** state transition.
pub open spec fn spec_advance(s: Seq<u64>) -> Seq<u64> {
    let t = s[1] << 17u64;
    let s2 = s[2] ^ s[0];
    let s3 = s[3] ^ s[1];
    let s1 = s[1] ^ s2;
    let s0 = s[0] ^ s3;
    seq![s0, s1, s2 ^ t, spec_rotl(s3, 45u64)]
}

/// The rejection threshold of the multiply-shift draw for a bound `n > 0`:
/// `2^64 mod n`.
pub open spec fn spec_threshold(n: u64) -> u64 {
    ((0x1_0000_0000_0000_0000int - n) % (n as int)) as u64
}

/// The low 32 bits of the next output, widened.
pub open spec fn spec_draw(s: Seq<u64>) -> u64 {
    (spec_output(s) as u32) as u64
}

/// Draw candidates from state `s` until one is accepted (its low product word is
/// at least `threshold`) or `fuel` redraws are spent. Returns the value and the
/// state after the last draw.
pub open spec fn spec_below_loop(s: Seq<u64>, n: u64, threshold: u64, fuel: nat) -> (u32, Seq<u64>)
    decreases fuel,
{
    let x = spec_draw(s);
    let m = (x * n) as u64;
    let next = spec_advance(s);
    if (m as u32) as u64 >= threshold || fuel == 0 {
        ((m >> 32u64) as u32, next)
    } else {
        spec_below_loop(next, n, threshold, (fuel - 1) as nat)
    }
}

/// The value `below(n)` returns from state `s`, and the state it leaves behind.
pub open spec fn spec_below(s: Seq<u64>, n: u32) -> (u32, Seq<u64>) {
    if n == 0 {
        (0, s)
    } else {
        spec_below_loop(s, n as u64, spec_threshold(n as u64), MAX_REDRAWS as nat)
    }
}

/// What `range(lo, hi)` returns from state `s`, and the state it leaves behind.
pub open spec fn spec_range(s: Seq<u64>, lo: i32, hi: i32) -> (i32, Seq<u64>) {
    if hi <= lo {
        (lo, s)
    } else {
        let r = spec_below(s, ((hi - lo) + 1) as u32);
        ((lo + r.0) as i32, r.1)
    }
}

/// What `chance(percent)` returns from state `s`, and the state it leaves behind.
pub open spec fn spec_chance(s: Seq<u64>, percent: u32) -> (bool, Seq<u64>) {
    if percent == 0 {
        (false, s)
    } else if percent >= 100 {
        (true, s)
    } else {
        let r = spec_below(s, 100);
        (r.0 < percent, r.1)
    }
}

/// Deterministic RNG. Cloneable so a run can be re-simulated from any point.
#[derive(Clone, Debug)]
pub struct Rng {
    state: [u64; 4],
}

impl View for Rng {
    type V = Seq<u64>;

    closed spec fn view(&self) -> Seq<u64> {
        self.state@
    }
}

/// The draw `(x * n) >> 32` of a 32-bit `x` lies below `n`.
proof fn lemma_scaled_below(x: u64, n: u64)
    requires
        x < 0x1_0000_0000,
        0 < n < 0x1_0000_0000,
    ensures
        x * n < 0x1_0000_0000_0000_0000,
        ((x * n) as u64 >> 32u64) < n,
{
    assert(x * n < 0x1_0000_0000 * n) by (nonlinear_arith)
        requires
            x < 0x1_0000_0000,
            0 < n,
    ;
    assert(0x1_0000_0000 * n < 0x1_0000_0000_0000_0000) by (nonlinear_arith)
        requires
            n < 0x1_0000_0000,
    ;
    let m = (x * n) as u64;
    assert(m >> 32u64 == m / 0x1_0000_0000) by (bit_vector);
    assert(m / 0x1_0000_0000 < n) by (nonlinear_arith)
        requires
            m < 0x1_0000_0000 * n,
    ;
}

/// Every state reachable by the redraw loop keeps four words, and its value is
/// below the bound.
proof fn lemma_below_loop(s: Seq<u64>, n: u64, threshold: u64, fuel: nat)
    requires
        0 < n < 0x1_0000_0000,
        s.len() == 4,
    ensures
        spec_below_loop(s, n, threshold, fuel).0 < n,
        spec_below_loop(s, n, threshold, fuel).1.len() == 4,
    decreases fuel,
{
    let x = spec_draw(s);
    lemma_scaled_below(x, n);
    if fuel > 0 {
        lemma_below_loop(spec_advance(s), n, threshold, (fuel - 1) as nat);
    }
}

/// `below(n)` returns a value under `n` (0 for `n == 0`) and keeps the state shape.
pub proof fn lemma_below_bounds(s: Seq<u64>, n: u32)
    requires
        s.len() == 4,
    ensures
        n > 0 ==> spec_below(s, n).0 < n,
        n == 0 ==> spec_below(s, n).0 == 0,
        spec_below(s, n).1.len() == 4,
{
    if n > 0 {
        lemma_below_loop(s, n as u64, spec_threshold(n as u64), MAX_REDRAWS as nat);
    }
}

impl Rng {
    /// Create an RNG from a 64-bit seed (SplitMix64 expansion).
    pub fn new(seed: u64) -> (r: Self)
        ensures
            r@ == spec_seed_state(seed),
    {
        let c1 = seed.wrapping_add(GOLDEN_GAMMA);
        let c2 = c1.wrapping_add(GOLDEN_GAMMA);
        let c3 = c2.wrapping_add(GOLDEN_GAMMA);
        let c4 = c3.wrapping_add(GOLDEN_GAMMA);
        let r = Rng { state: [mix64(c1), mix64(c2), mix64(c3), mix64(c4)] };
        proof {
            reveal_with_fuel(spec_counter, 5);
            assert(r@ =~= spec_seed_state(seed));
        }
        r
    }

    /// Raw next 64-bit value (xoshiro256**).
    pub fn next_u64(&mut self) -> (r: u64)
        ensures
            r == spec_output(old(self)@),
            final(self)@ == spec_advance(old(self)@),
    {
        let s0 = self.state[0];
        let s1 = self.state[1];
        let s2 = self.state[2];
        let s3 = self.state[3];
        let result = rotl(s1.wrapping_mul(5), 7).wrapping_mul(9);
        let t = s1 << 17u64;
        let n2 = s2 ^ s0;
        let n3 = s3 ^ s1;
        let n1 = s1 ^ n2;
        let n0 = s0 ^ n3;
        self.state = [n0, n1, n2 ^ t, rotl(n3, 45)];
        proof {
            assert(self@ =~= spec_advance(old(self)@));
        }
        result
    }

    /// Uniform integer in `[0, n)`. Returns 0 when `n == 0`.
    ///
    /// Lemire's multiply-shift with rejection keeps it unbiased and integer-only.
    pub fn below(&mut self, n: u32) -> (r: u32)
        ensures
            r == spec_below(old(self)@, n).0,
            final(self)@ == spec_below(old(self)@, n).1,
            n > 0 ==> r < n,
            n == 0 ==> r == 0,
    {
        proof {
            lemma_below_bounds(self@, n);
        }
        if n == 0 {
            return 0;
        }
        let n = n as u64;
        let ghost s_start = self@;
        let ghost mut prev = self@;
        let out = self.next_u64();
        let mut x = (out as u32) as u64;
        proof {
            lemma_scaled_below(x, n);
        }
        let mut m = x * n;
        let mut low = (m as u32) as u64;
        let mut tries: u64 = 0;
        let threshold = (u64::MAX - n + 1) % n;
        proof {
            vstd::arithmetic::div_mod::lemma_mod_pos_bound((u64::MAX - n + 1) as int, n as int);
            assert(threshold == spec_threshold(n));
        }
        if low < n {
            while low < threshold && tries < MAX_REDRAWS
                invariant
                    0 < n < 0x1_0000_0000,
                    threshold == spec_threshold(n),
                    prev.len() == 4,
                    self@ == spec_advance(prev),
                    x == spec_draw(prev),
                    x < 0x1_0000_0000,
                    m == x * n,
                    low == (m as u32) as u64,
                    spec_below_loop(s_start, n, threshold, MAX_REDRAWS as nat)
                        == spec_below_loop(prev, n, threshold, (MAX_REDRAWS - tries) as nat),
                decreases MAX_REDRAWS - tries,
            {
                proof {
                    lemma_scaled_below(x, n);
                    assert(spec_below_loop(prev, n, threshold, (MAX_REDRAWS - tries) as nat)
                        == spec_below_loop(self@, n, threshold, (MAX_REDRAWS - tries - 1) as nat));
                    prev = self@;
                }
                let out = self.next_u64();
                x = (out as u32) as u64;
                proof {
                    lemma_scaled_below(x, n);
                }
                m = x * n;
                low = (m as u32) as u64;
                tries = tries + 1;
            }
        }
        proof {
            lemma_scaled_below(x, n);
        }
        (m >> 32) as u32
    }

    /// Inclusive range `[lo, hi]`; `lo` when `hi <= lo`.
    pub fn range(&mut self, lo: i32, hi: i32) -> (r: i32)
        requires
            hi <= lo || hi - lo <= i32::MAX,
        ensures
            r == spec_range(old(self)@, lo, hi).0,
            final(self)@ == spec_range(old(self)@, lo, hi).1,
            hi <= lo ==> r == lo,
            hi > lo ==> lo <= r <= hi,
    {
        if hi <= lo {
            return lo;
        }
        let span = (hi - lo) as u32 + 1;
        let v = self.below(span);
        lo + v as i32
    }

    /// True with probability `percent`/100: `chance(0)` never, `chance(100)` always.
    pub fn chance(&mut self, percent: u32) -> (r: bool)
        ensures
            r == spec_chance(old(self)@, percent).0,
            final(self)@ == spec_chance(old(self)@, percent).1,
            percent == 0 ==> !r,
            percent >= 100 ==> r,
    {
        if percent == 0 {
            return false;
        }
        if percent >= 100 {
            return true;
        }
        self.below(100) < percent
    }

    /// A random index into a slice of length `len`; `None` for an empty slice.
    pub fn pick(&mut self, len: usize) -> (r: Option<usize>)
        ensures
            len == 0 ==> r.is_none() && final(self)@ == old(self)@,
            len > 0 ==> r == Some(spec_below(old(self)@, len as u32).0 as usize)
                && final(self)@ == spec_below(old(self)@, len as u32).1,
            r matches Some(i) ==> i < len,
    {
        if len == 0 {
            None
        } else {
            let v = self.below(len as u32);
            Some(v as usize)
        }
    }
}

/// The SplitMix64 output mix.
fn mix64(z: u64) -> (r: u64)
    ensures
        r == spec_mix64(z),
{
    let z1 = (z ^ (z >> 30u64)).wrapping_mul(0xBF58476D1CE4E5B9);
    let z2 = (z1 ^ (z1 >> 27u64)).wrapping_mul(0x94D049BB133111EB);
    z2 ^ (z2 >> 31u64)
}

/// Rotate left by `k` bits, `0 < k < 64`.
fn rotl(x: u64, k: u64) -> (r: u64)
    requires
        0 < k < 64,
    ensures
        r == spec_rotl(x, k),
{
    (x << k) | (x >> (64 - k))
}

} // verus!
