//! The per-lane lower-bound estimator. A branch entry's classification key
//! packs one population count per lane; the summed per-lane difference
//! between a stored key and the query's key at the same level never
//! exceeds the true Hamming distance of any feature behind that key to the
//! query, so an entry whose estimate exceeds the search radius can be
//! skipped without losing a match.
use vstd::prelude::*;
use vstd::arithmetic::power2::{pow2, lemma2_to64, lemma_pow2_adds, lemma_pow2_pos};
use vstd::arithmetic::div_mod::{lemma_mod_multiples_vanish, lemma_div_multiples_vanish_fancy, lemma_small_mod};
use crate::bits::{pop, pack, absdiff, hamming, level_key, lane_width, lane_count, block_width, lemma_pop_le, lemma_count_lt_pow2, lemma_popdiff, lemma_pop_split, lemma_u128_xor_split, lemma_u128_bound, lemma_pow2_le_128};

verus! {

/// Summed per-lane difference of two packed keys, `c` lanes of `w` bits:
/// the lower-bound estimate the search prunes with.
pub open spec fn key_dist(k1: nat, k2: nat, w: nat, c: nat) -> nat
    decreases c,
{
    if c == 0 {
        0
    } else {
        absdiff(k1 % pow2(w), k2 % pow2(w)) + key_dist(k1 / pow2(w), k2 / pow2(w), w, (c - 1) as nat)
    }
}

/// A packed key's lowest lane is the lowest block's count, and dropping it
/// packs the remaining blocks.
proof fn lemma_pack_lanes(n: nat, w: nat, c: nat)
    requires
        1 <= w,
        1 <= c,
    ensures
        pack(n, w, c) % pow2(w) == pop(n % pow2(w), w),
        pack(n, w, c) / pow2(w) == pack(n / pow2(w), w, (c - 1) as nat),
{
    let p = pow2(w);
    let low = pop(n % p, w);
    let rest = pack(n / p, w, (c - 1) as nat);
    lemma_pow2_pos(w);
    lemma_pop_le(n % p, w);
    lemma_count_lt_pow2(w);
    assert(pack(n, w, c) == p * rest + low) by (nonlinear_arith)
        requires
            pack(n, w, c) == low + rest * p,
    ;
    lemma_mod_multiples_vanish(rest as int, low as int, p as int);
    lemma_small_mod(low, p);
    lemma_div_multiples_vanish_fancy(rest as int, low as int, p as int);
}

/// The estimator never exceeds the Hamming distance: on the keys of two
/// words, the summed per-lane count difference is at most the number of
/// differing bits.
pub proof fn lemma_key_dist_le_pop(x: u128, y: u128, w: nat, c: nat)
    requires
        block_width(w),
        w * c <= 128,
    ensures
        key_dist(pack(x as nat, w, c), pack(y as nat, w, c), w, c) <= pop((x ^ y) as nat, w * c),
    decreases c,
{
    lemma2_to64();
    if c > 0 {
        let m: u128 = if w == 1 {
            2
        } else if w == 2 {
            4
        } else if w == 4 {
            0x10
        } else if w == 8 {
            0x100
        } else if w == 16 {
            0x10000
        } else if w == 32 {
            0x100000000
        } else {
            0x10000000000000000
        };
        assert(m as nat == pow2(w));
        lemma_pow2_pos(w);
        lemma_u128_xor_split(x, y, m);
        lemma_popdiff(x % m, y % m, w);
        assert(w * c == w + w * (c - 1) as nat) by (nonlinear_arith)
            requires
                c >= 1,
        ;
        lemma_pop_split((x ^ y) as nat, w, (w * (c - 1) as nat) as nat);
        assert(w * (c - 1) as nat <= 128) by (nonlinear_arith)
            requires
                w * c <= 128,
                c >= 1,
        ;
        lemma_key_dist_le_pop(x / m, y / m, w, (c - 1) as nat);
        lemma_pack_lanes(x as nat, w, c);
        lemma_pack_lanes(y as nat, w, c);
        assert((x / m) as nat == x as nat / pow2(w));
        assert((y / m) as nat == y as nat / pow2(w));
        assert(((x ^ y) / m) as nat == (x ^ y) as nat / pow2(w));
        assert(((x % m) ^ (y % m)) as nat == ((x ^ y) % m) as nat);
        assert(((x ^ y) % m) as nat == (x ^ y) as nat % pow2(w));
    }
}

/// The pruning bound, stated on the per-level keys of two whole words.
pub proof fn lemma_level_lower_bound(f: u128, q: u128, level: int)
    requires
        0 <= level <= 7,
    ensures
        key_dist(level_key(f, level), level_key(q, level), lane_width(level), lane_count(level))
            <= hamming(f, q),
{
    lemma2_to64();
    let w = lane_width(level);
    let c = lane_count(level);
    assert(w * c == 128) by {
        lemma_pow2_adds((7 - level) as nat, level as nat);
    }
    if level == 0 {
        lemma_u128_bound(f);
        lemma_u128_bound(q);
        lemma_pow2_le_128(128);
        lemma_pop_le(f as nat, 128);
        lemma_pop_le(q as nat, 128);
        crate::bits::lemma_level0_key(f);
        crate::bits::lemma_level0_key(q);
        lemma_small_mod(pop(f as nat, 128), pow2(128));
        lemma_small_mod(pop(q as nat, 128), pow2(128));
        lemma_popdiff(f, q, 128);
        assert(key_dist(pop(f as nat, 128), pop(q as nat, 128), pow2(7), 1) == absdiff(
            pop(f as nat, 128) % pow2(128),
            pop(q as nat, 128) % pow2(128),
        ) + key_dist(pop(f as nat, 128) / pow2(128), pop(q as nat, 128) / pow2(128), pow2(7), 0));
    } else {
        assert(block_width(w));
        lemma_key_dist_le_pop(f, q, w, c);
    }
}

/// A key distance stays below one lane capacity per lane.
proof fn lemma_key_dist_bound(k1: nat, k2: nat, w: nat, c: nat)
    requires
        1 <= w <= 64,
    ensures
        key_dist(k1, k2, w, c) <= c * 0xFFFFFFFFFFFFFFFF,
    decreases c,
{
    if c > 0 {
        lemma_key_dist_bound(k1 / pow2(w), k2 / pow2(w), w, (c - 1) as nat);
        lemma_pow2_pos(w);
        assert(pow2(w) <= pow2(64)) by {
            if w < 64 {
                vstd::arithmetic::power2::lemma_pow2_strictly_increases(w, 64);
            }
        }
        lemma2_to64();
        assert(absdiff(k1 % pow2(w), k2 % pow2(w)) < pow2(w));
        assert(c * 0xFFFFFFFFFFFFFFFF == 0xFFFFFFFFFFFFFFFF + (c - 1) as nat * 0xFFFFFFFFFFFFFFFF)
            by (nonlinear_arith)
            requires
                c >= 1,
        ;
    }
}

/// Computes the per-lane key distance of two same-level keys.
fn key_dist_exec(k1: u128, k2: u128, p: u128, c: u32, w: Ghost<nat>) -> (r: u128)
    requires
        1 <= w@ <= 64,
        p == pow2(w@),
        c <= 128,
    ensures
        r == key_dist(k1 as nat, k2 as nat, w@, c as nat),
    decreases c,
{
    proof {
        lemma_pow2_pos(w@);
    }
    if c == 0 {
        0
    } else {
        let a = k1 % p;
        let b = k2 % p;
        let d = if a >= b {
            a - b
        } else {
            b - a
        };
        let rest = key_dist_exec(k1 / p, k2 / p, p, c - 1, w);
        proof {
            lemma_key_dist_bound(k1 as nat / pow2(w@), k2 as nat / pow2(w@), w@, (c - 1) as nat);
            assert((c - 1) as nat * 0xFFFFFFFFFFFFFFFF <= 128 * 0xFFFFFFFFFFFFFFFF)
                by (nonlinear_arith)
                requires
                    c <= 128,
                    c >= 1,
            ;
            assert(pow2(w@) <= pow2(64)) by {
                if w@ < 64 {
                    vstd::arithmetic::power2::lemma_pow2_strictly_increases(w@, 64);
                }
            }
            lemma2_to64();
        }
        d + rest
    }
}

/// The pruning estimate for one branch entry: the per-lane distance
/// between a stored child key and the query's key at the given level.
pub fn lower_bound_at(k1: u128, k2: u128, level: usize) -> (r: u128)
    requires
        level < 8,
    ensures
        r == key_dist(
            k1 as nat,
            k2 as nat,
            lane_width(level as int),
            lane_count(level as int),
        ),
{
    proof {
        lemma2_to64();
    }
    if level == 0 {
        proof {
            lemma_u128_bound(k1);
            lemma_u128_bound(k2);
            lemma_pow2_le_128(128);
            lemma_small_mod(k1 as nat, pow2(128));
            lemma_small_mod(k2 as nat, pow2(128));
            assert(key_dist(k1 as nat, k2 as nat, pow2(7), 1) == absdiff(
                k1 as nat % pow2(128),
                k2 as nat % pow2(128),
            ) + key_dist(k1 as nat / pow2(128), k2 as nat / pow2(128), pow2(7), 0));
        }
        if k1 >= k2 {
            k1 - k2
        } else {
            k2 - k1
        }
    } else if level == 1 {
        key_dist_exec(k1, k2, 0x10000000000000000, 2, Ghost(64))
    } else if level == 2 {
        key_dist_exec(k1, k2, 0x100000000, 4, Ghost(32))
    } else if level == 3 {
        key_dist_exec(k1, k2, 0x10000, 8, Ghost(16))
    } else if level == 4 {
        key_dist_exec(k1, k2, 0x100, 16, Ghost(8))
    } else if level == 5 {
        key_dist_exec(k1, k2, 0x10, 32, Ghost(4))
    } else if level == 6 {
        key_dist_exec(k1, k2, 0x4, 64, Ghost(2))
    } else {
        key_dist_exec(k1, k2, 0x2, 128, Ghost(1))
    }
}

} // verus!
