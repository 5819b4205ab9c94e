//! Chunk size policy and program settings.

use vstd::arithmetic::logarithm::*;
use vstd::arithmetic::power::*;
use vstd::arithmetic::power2::*;
use vstd::bits::*;
use vstd::prelude::*;

verus! {

/// Smallest number of hash bits a boundary may test.
pub const MIN_BOUNDARY_BITS: u32 = 1;

/// Largest number of hash bits a boundary may test.
pub const MAX_BOUNDARY_BITS: u32 = 31;

/// The integer nearest to the binary logarithm of `n`, for `n >= 1`.
///
/// `k` is nearest to `log2(n)` when `2^(k - 1/2) <= n < 2^(k + 1/2)`, which
/// squares to `4^k <= 2 * n^2 < 4^(k + 1)`: `k` is the base-4 logarithm of
/// `2 * n^2`, rounded down.
pub open spec fn nearest_log2(n: nat) -> nat {
    log(4, (2 * n * n) as int) as nat
}

/// How many low bits of the rolling hash must be zero at a boundary, for a
/// target average chunk size `avg`: the integer nearest to `log2(avg)`, kept
/// within `MIN_BOUNDARY_BITS..=MAX_BOUNDARY_BITS`.
pub open spec fn spec_boundary_bits(avg: nat) -> nat {
    let k = nearest_log2(avg);
    if k < MIN_BOUNDARY_BITS {
        MIN_BOUNDARY_BITS as nat
    } else if k > MAX_BOUNDARY_BITS {
        MAX_BOUNDARY_BITS as nat
    } else {
        k
    }
}

/// The mask that selects the low `spec_boundary_bits(avg)` bits of a hash.
pub open spec fn spec_boundary_mask(avg: nat) -> u32 {
    (pow2(spec_boundary_bits(avg)) - 1) as u32
}

/// The base-4 logarithm of `x` is the `k` with `4^k <= x < 4^(k + 1)`.
pub proof fn lemma_log4_bounds(x: int)
    requires
        x >= 1,
    ensures
        log(4, x) >= 0,
        pow(4, log(4, x) as nat) <= x < pow(4, (log(4, x) + 1) as nat),
    decreases x,
{
    lemma_log_nonnegative(4, x);
    if x < 4 {
        lemma_log0(4, x);
        lemma_pow0(4);
        lemma_pow1(4);
    } else {
        lemma_log_s(4, x);
        let l = log(4, x / 4);
        lemma_log4_bounds(x / 4);
        lemma_pow_unfold4(l as nat);
        lemma_pow_unfold4((l + 1) as nat);
    }
}

/// Only one `k` has `4^k <= x < 4^(k + 1)`, and it is the base-4 logarithm
/// of `x`.
pub proof fn lemma_log4_unique(x: int, k: nat)
    requires
        pow(4, k) <= x < pow(4, k + 1),
    ensures
        log(4, x) == k,
    decreases k,
{
    if k == 0 {
        lemma_pow0(4);
        lemma_pow1(4);
        lemma_log0(4, x);
    } else {
        let j = (k - 1) as nat;
        lemma_pow_unfold4(j);
        lemma_pow_unfold4(k);
        lemma_pow_positive(4, j);
        lemma_log_s(4, x);
        lemma_log4_unique(x / 4, j);
    }
}

/// `4^(e + 1) == 4 * 4^e`.
proof fn lemma_pow_unfold4(e: nat)
    ensures
        pow(4, e + 1) == 4 * pow(4, e),
{
    reveal(pow);
}

/// `4^e == 2^(2 * e)`.
proof fn lemma_pow4_is_pow2(e: nat)
    ensures
        pow(4, e) == pow2(2 * e),
    decreases e,
{
    if e == 0 {
        lemma_pow0(4);
        lemma2_to64();
    } else {
        lemma_pow4_is_pow2((e - 1) as nat);
        lemma_pow_unfold4((e - 1) as nat);
        lemma_pow2_unfold(2 * e);
        lemma_pow2_unfold((2 * e - 1) as nat);
    }
}

/// For `n >= 1`, `nearest_log2(n)` is the one `k` with
/// `4^k <= 2 * n^2 < 4^(k + 1)`, that is with
/// `k - 1/2 <= log2(n) < k + 1/2`.
pub proof fn lemma_nearest_log2(n: nat, k: nat)
    requires
        n >= 1,
    ensures
        nearest_log2(n) == k <==> pow(4, k) <= 2 * n * n < pow(4, k + 1),
{
    let x: int = (2 * n * n) as int;
    assert(x >= 1) by (nonlinear_arith)
        requires
            n >= 1,
            x == 2 * n * n,
    ;
    lemma_log4_bounds(x);
    if pow(4, k) <= x < pow(4, k + 1) {
        lemma_log4_unique(x, k);
    }
}

/// The bits of `h` that the boundary mask selects are all zero exactly when
/// `h` is a multiple of `2^bits`, which holds of one value in `2^bits`.
pub proof fn lemma_boundary_hit(avg: nat, h: u32)
    ensures
        h & spec_boundary_mask(avg) == 0 <==> h as nat % pow2(spec_boundary_bits(avg)) == 0,
{
    let bits = spec_boundary_bits(avg);
    lemma_u32_pow2_no_overflow(bits);
    lemma_u32_low_bits_mask_is_mod(h, bits);
}

/// Minimum, target average and maximum chunk size, in bytes.
#[derive(Clone, Copy, Debug)]
pub struct ChunkSettings {
    pub min: usize,
    pub avg: usize,
    pub max: usize,
}

impl ChunkSettings {
    /// The sizes are ordered and the minimum is not zero.
    pub open spec fn valid(&self) -> bool {
        0 < self.min <= self.avg <= self.max
    }

    /// Tells whether the sizes are ordered and the minimum is not zero.
    pub fn is_valid(&self) -> (ok: bool)
        ensures
            ok == self.valid(),
    {
        0 < self.min && self.min <= self.avg && self.avg <= self.max
    }

    /// The number of low hash bits that must be zero at a boundary.
    pub fn boundary_bits(&self) -> (bits: u32)
        ensures
            bits == spec_boundary_bits(self.avg as nat),
            MIN_BOUNDARY_BITS <= bits <= MAX_BOUNDARY_BITS,
    {
        let avg = self.avg as u128;
        assert(avg * avg <= u128::MAX) by (nonlinear_arith)
            requires
                avg <= 0xffff_ffff_ffff_ffff,
        ;
        let square: u128 = avg * avg;
        let mut bits: u32 = 1;
        // Half of 4^(bits + 1), the least value of 2 * avg^2 that rounds above `bits`.
        let mut half_next: u128 = 8;
        proof {
            lemma_pow1(4);
            lemma_pow_unfold4(1);
        }
        while bits < 31 && square >= half_next
            invariant
                1 <= bits <= 31,
                2 * half_next == pow(4, (bits + 1) as nat),
                bits == 1 || 2 * square >= pow(4, bits as nat),
            decreases 31 - bits,
        {
            proof {
                lemma_pow_increases(4, (bits + 1) as nat, 31);
                lemma_pow4_is_pow2(31);
                lemma2_to64_rest();
                lemma_pow_unfold4((bits + 1) as nat);
            }
            bits += 1;
            half_next = half_next * 4;
        }
        proof {
            let x: int = 2 * square;
            assert(x == 2 * (self.avg as nat) * (self.avg as nat)) by (nonlinear_arith)
                requires
                    x == 2 * square,
                    square == avg * avg,
                    avg == self.avg,
            ;
            lemma_log_nonnegative(4, x);
            if bits == 31 && square >= half_next {
                lemma_pow_positive(4, 31);
                lemma_pow_increases(4, 31, 32);
                lemma_log_is_ordered(4, pow(4, 31), x);
                lemma_log_pow(4, 31);
            } else if bits > 1 {
                lemma_log4_unique(x, bits as nat);
            } else if x >= 4 {
                lemma_pow1(4);
                lemma_log4_unique(x, 1);
            } else {
                lemma_log0(4, x);
            }
        }
        bits
    }

    /// The mask whose set bits are the low `boundary_bits()` bits.
    pub fn boundary_mask(&self) -> (mask: u32)
        ensures
            mask == spec_boundary_mask(self.avg as nat),
            mask == low_bits_mask(spec_boundary_bits(self.avg as nat)),
            0 < mask,
    {
        let bits = self.boundary_bits();
        proof {
            lemma_u32_pow2_no_overflow(bits as nat);
            lemma_u32_shl_is_mul(1, bits);
            lemma_pow2_strictly_increases(0, bits as nat);
            lemma2_to64();
        }
        (1u32 << bits) - 1
    }
}

/// What the program is run with.
#[derive(Clone, Copy, Debug)]
pub struct Settings {
    pub chunk_settings: ChunkSettings,
    pub debug: bool,
}

impl Settings {
    /// Settings made of a chunk size policy and the debug switch.
    pub fn new(chunk_settings: ChunkSettings, debug: bool) -> (settings: Settings)
        ensures
            settings.chunk_settings == chunk_settings,
            settings.debug == debug,
    {
        Settings { chunk_settings, debug }
    }
}

} // verus!
