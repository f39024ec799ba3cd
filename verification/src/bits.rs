//! Bit-level model: population counts, Hamming distance, and the packed
//! per-level classification keys that route features through the tree.
//!
//! A feature is a 128-bit word. At level `l` (0 through 7) the word is cut
//! into `2^l` blocks of `128 / 2^l` bits each; the classification key packs
//! the population count of each block into a lane of the same width. Level 0
//! is therefore the total population count and level 7 is the feature itself.
use vstd::prelude::*;
use vstd::arithmetic::power2::{pow2, lemma2_to64, lemma_pow2_adds, lemma_pow2_pos};
use vstd::arithmetic::mul::lemma_mul_inequality;
use vstd::arithmetic::div_mod::{lemma_breakdown, lemma_div_denominator, lemma_mod_multiples_vanish, lemma_div_multiples_vanish_fancy, lemma_small_mod};

verus! {

/// Number of ones among the low `k` binary digits of `n`.
pub open spec fn pop(n: nat, k: nat) -> nat
    decreases k,
{
    if k == 0 {
        0
    } else {
        n % 2 + pop(n / 2, (k - 1) as nat)
    }
}

/// Hamming distance: the number of differing bits of two 128-bit words.
pub open spec fn hamming(a: u128, b: u128) -> nat {
    pop((a ^ b) as nat, 128)
}

/// Relies on `u128::count_ones`: std documents that it returns the number of
/// ones in the binary representation, which is `pop` over all 128 digits.
pub assume_specification[ u128::count_ones ](x: u128) -> (r: u32)
    ensures
        r == pop(x as nat, 128),
;

pub proof fn lemma_pop_le(n: nat, k: nat)
    ensures
        pop(n, k) <= k,
    decreases k,
{
    if k > 0 {
        lemma_pop_le(n / 2, (k - 1) as nat);
    }
}

pub proof fn lemma_pop_zero(k: nat)
    ensures
        pop(0, k) == 0,
    decreases k,
{
    if k > 0 {
        lemma_pop_zero((k - 1) as nat);
    }
}

/// Digits beyond the width of `n` contribute nothing to the count.
pub proof fn lemma_pop_extend(n: nat, j: nat, k: nat)
    requires
        n < pow2(j),
        j <= k,
    ensures
        pop(n, k) == pop(n, j),
    decreases j,
{
    if j == 0 {
        assert(pow2(0) == 1) by {
            lemma2_to64();
        }
        assert(n == 0);
        lemma_pop_zero(k);
    } else {
        assert(pow2(j) == 2 * pow2((j - 1) as nat)) by {
            lemma_pow2_adds(1, (j - 1) as nat);
            lemma2_to64();
        }
        assert(n / 2 < pow2((j - 1) as nat));
        lemma_pop_extend(n / 2, (j - 1) as nat, (k - 1) as nat);
    }
}

/// A value below its digit width with no one-digits is zero.
pub proof fn lemma_pop_zero_iff(n: nat, k: nat)
    requires
        n < pow2(k),
        pop(n, k) == 0,
    ensures
        n == 0,
    decreases k,
{
    if k == 0 {
        assert(pow2(0) == 1) by {
            lemma2_to64();
        }
    } else {
        assert(pow2(k) == 2 * pow2((k - 1) as nat)) by {
            lemma_pow2_adds(1, (k - 1) as nat);
            lemma2_to64();
        }
        lemma_pop_zero_iff(n / 2, (k - 1) as nat);
    }
}

/// True Hamming distance of two words, via the hardware population count.
pub fn distance(a: u128, b: u128) -> (r: u32)
    ensures
        r == hamming(a, b),
        r <= 128,
{
    proof {
        lemma_pop_le((a ^ b) as nat, 128);
    }
    (a ^ b).count_ones()
}

/// Absolute difference of two counts.
pub open spec fn absdiff(a: nat, b: nat) -> nat {
    if a >= b {
        (a - b) as nat
    } else {
        (b - a) as nat
    }
}

/// Changing some digits of a word changes its digit count by at most the
/// number of digits changed.
pub proof fn lemma_popdiff(x: u128, y: u128, k: nat)
    ensures
        absdiff(pop(x as nat, k), pop(y as nat, k)) <= pop((x ^ y) as nat, k),
    decreases k,
{
    if k > 0 {
        lemma_popdiff(x / 2, y / 2, (k - 1) as nat);
        assert((x ^ y) / 2 == (x / 2) ^ (y / 2)) by (bit_vector);
        assert((x ^ y) % 2 == if x % 2 == y % 2 {
            0u128
        } else {
            1u128
        }) by (bit_vector);
    }
}

/// Counting the low `a + b` digits splits at digit `a`.
pub proof fn lemma_pop_split(n: nat, a: nat, b: nat)
    ensures
        pop(n, a + b) == pop(n % pow2(a), a) + pop(n / pow2(a), b),
    decreases a,
{
    lemma2_to64();
    if a == 0 {
        lemma_small_mod(0, 1);
        assert(n % pow2(0) == 0) by {
            assert(n % 1 == 0) by (nonlinear_arith);
        }
        assert(n / pow2(0) == n) by {
            assert(n / 1 == n) by (nonlinear_arith);
        }
    } else {
        let m = pow2((a - 1) as nat);
        assert(pow2(a) == 2 * m) by {
            lemma_pow2_adds(1, (a - 1) as nat);
        }
        lemma_pow2_pos((a - 1) as nat);
        lemma_breakdown(n as int, 2, m as int);
        lemma_div_denominator(n as int, 2, m as int);
        lemma_pop_split(n / 2, (a - 1) as nat, b);
        let q = (n / 2) % m;
        assert(n % (2 * m) == 2 * q + n % 2);
        assert((2 * q + n % 2) % 2 == n % 2) by {
            lemma_mod_multiples_vanish(q as int, (n % 2) as int, 2);
        }
        assert((2 * q + n % 2) / 2 == q) by {
            lemma_div_multiples_vanish_fancy(q as int, (n % 2) as int, 2);
        }
    }
}

/// Splitting exclusive-or at a power-of-two boundary, for the block
/// decompositions below.
pub proof fn lemma_u128_xor_split(x: u128, y: u128, m: u128)
    requires
        m == 2 || m == 4 || m == 0x10 || m == 0x100 || m == 0x10000 || m == 0x100000000 || m
            == 0x10000000000000000,
    ensures
        ((x ^ y) % m) == (x % m) ^ (y % m),
        ((x ^ y) / m) == (x / m) ^ (y / m),
{
    if m == 2 {
        assert(((x ^ y) % 2u128) == (x % 2u128) ^ (y % 2u128)) by (bit_vector);
        assert(((x ^ y) / 2u128) == (x / 2u128) ^ (y / 2u128)) by (bit_vector);
    } else if m == 4 {
        assert(((x ^ y) % 4u128) == (x % 4u128) ^ (y % 4u128)) by (bit_vector);
        assert(((x ^ y) / 4u128) == (x / 4u128) ^ (y / 4u128)) by (bit_vector);
    } else if m == 0x10 {
        assert(((x ^ y) % 0x10u128) == (x % 0x10u128) ^ (y % 0x10u128)) by (bit_vector);
        assert(((x ^ y) / 0x10u128) == (x / 0x10u128) ^ (y / 0x10u128)) by (bit_vector);
    } else if m == 0x100 {
        assert(((x ^ y) % 0x100u128) == (x % 0x100u128) ^ (y % 0x100u128)) by (bit_vector);
        assert(((x ^ y) / 0x100u128) == (x / 0x100u128) ^ (y / 0x100u128)) by (bit_vector);
    } else if m == 0x10000 {
        assert(((x ^ y) % 0x10000u128) == (x % 0x10000u128) ^ (y % 0x10000u128)) by (bit_vector);
        assert(((x ^ y) / 0x10000u128) == (x / 0x10000u128) ^ (y / 0x10000u128)) by (bit_vector);
    } else if m == 0x100000000 {
        assert(((x ^ y) % 0x100000000u128) == (x % 0x100000000u128) ^ (y % 0x100000000u128))
            by (bit_vector);
        assert(((x ^ y) / 0x100000000u128) == (x / 0x100000000u128) ^ (y / 0x100000000u128))
            by (bit_vector);
    } else {
        assert(((x ^ y) % 0x10000000000000000u128) == (x % 0x10000000000000000u128) ^ (y
            % 0x10000000000000000u128)) by (bit_vector);
        assert(((x ^ y) / 0x10000000000000000u128) == (x / 0x10000000000000000u128) ^ (y
            / 0x10000000000000000u128)) by (bit_vector);
    }
}

/// Whether `w` is one of the sub-word block widths the levels use.
pub open spec fn block_width(w: nat) -> bool {
    w == 1 || w == 2 || w == 4 || w == 8 || w == 16 || w == 32 || w == 64
}

/// Block width at a level: 128, 64, 32, 16, 8, 4, 2, 1.

/// Block width at a level: 128, 64, 32, 16, 8, 4, 2, 1.
pub open spec fn lane_width(level: int) -> nat {
    pow2((7 - level) as nat)
}

/// Number of blocks at a level: 1, 2, 4, 8, 16, 32, 64, 128.
pub open spec fn lane_count(level: int) -> nat {
    pow2(level as nat)
}

/// Packs the population count of each `w`-bit block of `n`, lowest block
/// first, one `w`-bit lane per block.
pub open spec fn pack(n: nat, w: nat, c: nat) -> nat
    decreases c,
{
    if c == 0 {
        0
    } else {
        pop(n % pow2(w), w) + pack(n / pow2(w), w, (c - 1) as nat) * pow2(w)
    }
}

/// Classification key of feature `f` at level `level`.
pub open spec fn level_key(f: u128, level: int) -> nat {
    pack(f as nat, lane_width(level), lane_count(level))
}

/// A count never reaches the capacity of its lane.
pub proof fn lemma_count_lt_pow2(w: nat)
    requires
        1 <= w,
    ensures
        w < pow2(w),
    decreases w,
{
    lemma2_to64();
    if w > 1 {
        lemma_count_lt_pow2((w - 1) as nat);
        lemma_pow2_adds(1, (w - 1) as nat);
    }
}

/// A packed key occupies exactly `c` lanes of `w` bits.
pub proof fn lemma_pack_bound(n: nat, w: nat, c: nat)
    requires
        1 <= w,
    ensures
        pack(n, w, c) < pow2(w * c),
    decreases c,
{
    lemma_pow2_pos(w);
    lemma_pow2_pos(w * c);
    if c == 0 {
    } else {
        let rest = pack(n / pow2(w), w, (c - 1) as nat);
        lemma_pack_bound(n / pow2(w), w, (c - 1) as nat);
        lemma_pop_le(n % pow2(w), w);
        lemma_count_lt_pow2(w);
        assert(rest <= pow2(w * (c - 1) as nat) - 1);
        lemma_mul_inequality(rest as int, pow2(w * (c - 1) as nat) - 1, pow2(w) as int);
        lemma_pow2_adds(w, w * (c - 1) as nat);
        assert(w + w * (c - 1) as nat == w * c) by (nonlinear_arith)
            requires
                c >= 1,
        ;
        assert(pack(n, w, c) <= w + (pow2(w * (c - 1) as nat) - 1) * pow2(w));
        assert((pow2(w * (c - 1) as nat) - 1) * pow2(w) == pow2(w * c) - pow2(w))
            by (nonlinear_arith)
            requires
                pow2(w) * pow2(w * (c - 1) as nat) == pow2(w * c),
        ;
    }
}

/// Every 128-bit word is below `pow2(128)`.
pub proof fn lemma_u128_bound(f: u128)
    ensures
        (f as nat) < pow2(128),
{
    lemma2_to64();
    lemma_pow2_adds(64, 64);
    assert(pow2(128) == 0x10000000000000000 * 0x10000000000000000);
}

/// Recursive worker mirroring `pack` lane by lane.
fn pack_exec(n: u128, p: u128, c: u32, w: Ghost<nat>) -> (r: u128)
    requires
        1 <= w@ <= 64,
        p == pow2(w@),
        w@ * c <= 128,
    ensures
        r == pack(n as nat, w@, c as nat),
    decreases c,
{
    proof {
        lemma_pow2_pos(w@);
    }
    if c == 0 {
        0
    } else {
        let block = n % p;
        let ones = block.count_ones();
        proof {
            lemma_pop_extend(block as nat, w@, 128);
            assert(w@ * ((c - 1) as u32) <= 128) by (nonlinear_arith)
                requires
                    w@ * c <= 128,
                    c >= 1,
            ;
        }
        let rest = pack_exec(n / p, p, c - 1, w);
        proof {
            lemma_pack_bound(n as nat / pow2(w@), w@, (c - 1) as nat);
            lemma_pop_le(n as nat % pow2(w@), w@);
            lemma_count_lt_pow2(w@);
            lemma_pow2_adds(w@, w@ * (c - 1) as nat);
            assert(w@ + w@ * (c - 1) as nat == w@ * c) by (nonlinear_arith)
                requires
                    c >= 1,
            ;
            assert((rest as nat) <= pow2(w@ * (c - 1) as nat) - 1);
            lemma_mul_inequality(rest as int, pow2(w@ * (c - 1) as nat) - 1, pow2(w@) as int);
            assert((pow2(w@ * (c - 1) as nat) - 1) * pow2(w@) == pow2(w@ * c as nat) - pow2(w@))
                by (nonlinear_arith)
                requires
                    pow2(w@) * pow2(w@ * (c - 1) as nat) == pow2(w@ * c as nat),
            ;
            lemma_pow2_le_128(w@ * c as nat);
        }
        (ones as u128) + rest * p
    }
}

/// The level-0 key of a word is its population count.
pub proof fn lemma_level0_key(f: u128)
    ensures
        level_key(f, 0) == pop(f as nat, 128),
{
    lemma2_to64();
    lemma_u128_bound(f);
    lemma_pow2_le_128(128);
    vstd::arithmetic::div_mod::lemma_small_mod(f as nat, pow2(128));
    assert(f as nat / pow2(128) == 0) by (nonlinear_arith)
        requires
            (f as nat) < pow2(128),
            pow2(128) > 0,
    ;
    assert(pack(f as nat, 128, 1) == pop(f as nat % pow2(128), 128) + pack(
        f as nat / pow2(128),
        128,
        0,
    ) * pow2(128));
}

/// `pow2` of at most 128 stays within the 128-bit range (by one past the top).
pub proof fn lemma_pow2_le_128(e: nat)
    requires
        e <= 128,
    ensures
        pow2(e) <= pow2(128),
        pow2(128) == 0x100000000000000000000000000000000,
{
    lemma2_to64();
    lemma_pow2_adds(64, 64);
    if e < 128 {
        vstd::arithmetic::power2::lemma_pow2_strictly_increases(e, 128);
    }
}

/// Classification key of `f` at `level`, as the data structure routes it.
pub fn key_at(f: u128, level: usize) -> (k: u128)
    requires
        level < 8,
    ensures
        k == level_key(f, level as int),
{
    proof {
        lemma2_to64();
    }
    if level == 0 {
        proof {
            lemma_u128_bound(f);
            lemma_pow2_le_128(128);
            vstd::arithmetic::div_mod::lemma_small_mod(f as nat, pow2(128));
            assert(f as nat % pow2(128) == f as nat);
            assert(pack(f as nat, 128, 1) == pop(f as nat, 128) + pack(f as nat / pow2(128), 128, 0) * pow2(128));
            assert(f as nat / pow2(128) == 0) by (nonlinear_arith)
                requires
                    (f as nat) < pow2(128),
                    pow2(128) > 0,
            ;
        }
        f.count_ones() as u128
    } else if level == 1 {
        pack_exec(f, 0x10000000000000000, 2, Ghost(64))
    } else if level == 2 {
        pack_exec(f, 0x100000000, 4, Ghost(32))
    } else if level == 3 {
        pack_exec(f, 0x10000, 8, Ghost(16))
    } else if level == 4 {
        pack_exec(f, 0x100, 16, Ghost(8))
    } else if level == 5 {
        pack_exec(f, 0x10, 32, Ghost(4))
    } else if level == 6 {
        pack_exec(f, 0x4, 64, Ghost(2))
    } else {
        pack_exec(f, 0x2, 128, Ghost(1))
    }
}

} // verus!
