//! The gear table and the rolling hash built on it.

use vstd::arithmetic::div_mod::lemma_mod_multiples_vanish;
use vstd::arithmetic::power2::{lemma2_to64, lemma_pow2_unfold, pow2};
use vstd::prelude::*;

verus! {

/// Start value of the generator that fills the gear table.
pub const GEAR_SEED: u32 = 0x1234_5678;

/// Multiplier of the generator.
pub const GEAR_MULTIPLIER: u32 = 1664525;

/// Increment of the generator.
pub const GEAR_INCREMENT: u32 = 1013904223;

/// One step of the linear congruential generator, modulo 2^32.
pub open spec fn lcg_next(x: u32) -> u32 {
    ((x as int * GEAR_MULTIPLIER as int + GEAR_INCREMENT as int) % 0x1_0000_0000) as u32
}

/// State of the generator after `n` steps from `GEAR_SEED`.
pub open spec fn lcg_state(n: nat) -> u32
    decreases n,
{
    if n == 0 {
        GEAR_SEED
    } else {
        lcg_next(lcg_state((n - 1) as nat))
    }
}

/// The mixing value of byte `b`: the generator's state after `b + 1` steps,
/// folded onto itself by its upper half.
pub open spec fn gear_value(b: u8) -> u32 {
    let x = lcg_state(b as nat + 1);
    x ^ (x >> 16)
}

/// `table` holds the mixing value of every byte.
pub open spec fn is_gear_table(table: Seq<u32>) -> bool {
    &&& table.len() == 256
    &&& forall|b: u8| #[trigger] table[b as int] == gear_value(b)
}

/// The hash after rolling byte `b` into hash `h`: `2 * h + gear_value(b)`
/// modulo 2^32.
pub open spec fn roll(h: u32, b: u8) -> u32 {
    ((2 * (h as int) + gear_value(b) as int) % 0x1_0000_0000) as u32
}

/// The rolling hash of `window`, started from zero at its first byte.
pub open spec fn gear_hash(window: Seq<u8>) -> u32
    decreases window.len(),
{
    if window.len() == 0 {
        0
    } else {
        roll(gear_hash(window.drop_last()), window.last())
    }
}

/// Reducing a term of a sum modulo 2^32 leaves the sum modulo 2^32 as it is.
proof fn lemma_mod_term(a: int, b: int)
    ensures
        (a + b % 0x1_0000_0000) % 0x1_0000_0000 == (a + b) % 0x1_0000_0000,
{
    lemma_mod_multiples_vanish(-(b / 0x1_0000_0000), a + b, 0x1_0000_0000);
}

/// Reducing a number modulo 2^32 before doubling it leaves the double
/// modulo 2^32 as it is.
proof fn lemma_mod_double(x: int, g: int)
    ensures
        (2 * (x % 0x1_0000_0000) + g) % 0x1_0000_0000 == (2 * x + g) % 0x1_0000_0000,
{
    lemma_mod_multiples_vanish(-2 * (x / 0x1_0000_0000), 2 * x + g, 0x1_0000_0000);
}

/// The wrapping multiplication and addition of `u32` make one step of the
/// generator.
proof fn lemma_lcg_step(x: u32)
    ensures
        u32::wrapping_add(u32::wrapping_mul(x, GEAR_MULTIPLIER), GEAR_INCREMENT) == lcg_next(x),
{
    let product: int = x as int * GEAR_MULTIPLIER as int;
    assert(product >= 0) by (nonlinear_arith)
        requires
            product == x as int * GEAR_MULTIPLIER as int,
            x >= 0,
    ;
    assert(x as nat * GEAR_MULTIPLIER as nat == product) by (nonlinear_arith)
        requires
            product == x as int * GEAR_MULTIPLIER as int,
    ;
    let wrapped: int = product % 0x1_0000_0000;
    assert(u32::wrapping_mul(x, GEAR_MULTIPLIER) == wrapped);
    lemma_mod_term(GEAR_INCREMENT as int, product);
    if wrapped + GEAR_INCREMENT > u32::MAX {
        lemma_mod_multiples_vanish(-1, wrapped + GEAR_INCREMENT, 0x1_0000_0000);
    }
}

/// The hash of `head + tail` is the hash of `head`, doubled once for each
/// byte of `tail`, plus the hash of `tail`, modulo 2^32: each byte weighs half
/// as much as the one after it.
pub proof fn lemma_gear_hash_concat(head: Seq<u8>, tail: Seq<u8>)
    ensures
        gear_hash(head + tail) == (gear_hash(head) * pow2(tail.len()) + gear_hash(tail))
            % 0x1_0000_0000,
    decreases tail.len(),
{
    if tail.len() == 0 {
        assert(head + tail =~= head);
        lemma2_to64();
    } else {
        let front = tail.drop_last();
        let g = gear_value(tail.last()) as int;
        lemma_gear_hash_concat(head, front);
        assert((head + tail).drop_last() =~= head + front);
        lemma_pow2_unfold(tail.len());
        let shifted = gear_hash(head) * pow2(front.len());
        assert(gear_hash(head) * pow2(tail.len()) == 2 * shifted) by (nonlinear_arith)
            requires
                pow2(tail.len()) == 2 * pow2(front.len()),
                shifted == gear_hash(head) * pow2(front.len()),
        ;
        let x = shifted + gear_hash(front);
        assert(gear_hash(head + tail) == (2 * (x % 0x1_0000_0000) + g) % 0x1_0000_0000);
        lemma_mod_double(x, g);
        assert(gear_hash(tail) == (2 * gear_hash(front) + g) % 0x1_0000_0000);
        lemma_mod_term(2 * shifted, 2 * gear_hash(front) + g);
    }
}

/// Only the last 32 bytes of a window count in its hash.
pub proof fn lemma_gear_hash_window(window: Seq<u8>)
    requires
        window.len() >= 32,
    ensures
        gear_hash(window) == gear_hash(window.skip(window.len() - 32)),
{
    let n = window.len() - 32;
    let head = window.take(n);
    let tail = window.skip(n);
    lemma_gear_hash_concat(head, tail);
    assert(head + tail =~= window);
    lemma2_to64();
    lemma_mod_multiples_vanish(gear_hash(head) as int, gear_hash(tail) as int, 0x1_0000_0000);
    assert(gear_hash(head) * pow2(32) == 0x1_0000_0000 * gear_hash(head)) by (nonlinear_arith)
        requires
            pow2(32) == 0x1_0000_0000,
    ;
}

/// Builds the gear table.
pub fn make_gear_table() -> (table: [u32; 256])
    ensures
        is_gear_table(table@),
{
    let mut table = [0u32; 256];
    let mut x: u32 = GEAR_SEED;
    let mut i: usize = 0;
    while i < 256
        invariant
            i <= 256,
            x == lcg_state(i as nat),
            forall|b: u8| (b as int) < i ==> #[trigger] table@[b as int] == gear_value(b),
        decreases 256 - i,
    {
        proof {
            lemma_lcg_step(x);
        }
        x = x.wrapping_mul(GEAR_MULTIPLIER).wrapping_add(GEAR_INCREMENT);
        table[i] = x ^ (x >> 16);
        i += 1;
    }
    table
}

/// Rolls the byte `b` into the hash `h`.
pub fn roll_byte(table: &[u32; 256], h: u32, b: u8) -> (next: u32)
    requires
        is_gear_table(table@),
    ensures
        next == roll(h, b),
{
    let shifted = h.wrapping_shl(1);
    assert(shifted == ((2 * (h as int)) % 0x1_0000_0000) as u32) by {
        assert(h << 1u32 == ((2 * (h as u64)) % 0x1_0000_0000) as u32) by (bit_vector);
    }
    shifted.wrapping_add(table[b as usize])
}

} // verus!
