//! Static repertoire data: the block-start characters of each tier.
//!
//! The 15-bit value space of a tier is stitched together from consecutive
//! blocks of `BLOCK_SIZE` codepoints, each block anchored at a block-start
//! character. Tier 0 covers all 32768 full-width values; tier 1 covers the
//! 128 seven-bit values that a padded final group can take. The tiers'
//! codepoint ranges are disjoint by construction.
use vstd::prelude::*;
use vstd::arithmetic::div_mod::lemma_fundamental_div_mod;

verus! {

/// Number of codepoints covered by one block-start character.
pub const BLOCK_SIZE: u16 = 32;

/// How many blocks the given tier's repertoire has.
pub open spec fn spec_num_blocks(tier: nat) -> nat {
    if tier == 0 {
        1024
    } else {
        4
    }
}

/// How many values the given tier's repertoire covers.
pub open spec fn spec_tier_size(tier: nat) -> nat {
    32 * spec_num_blocks(tier)
}

/// The codepoint at which block `i` of the given tier starts.
pub open spec fn spec_block_start(tier: nat, i: nat) -> nat {
    if tier == 0 {
        if i < 512 {
            9792 + 32 * i
        } else {
            9824 + 32 * i
        }
    } else {
        384 + 32 * i
    }
}

/// The codepoint that encodes value `v` in the given tier.
pub open spec fn cp_of(tier: nat, v: nat) -> nat {
    spec_block_start(tier, v / 32) + v % 32
}

/// Which tier and value a codepoint belongs to, if any. The three ranges
/// are pairwise disjoint, so at most one tier can claim a codepoint.
pub open spec fn classify_cp(cp: nat) -> Option<(nat, u16)> {
    if 384 <= cp < 512 {
        Some((1 as nat, (cp - 384) as u16))
    } else if 9792 <= cp < 26176 {
        Some((0 as nat, (cp - 9792) as u16))
    } else if 26208 <= cp < 42592 {
        Some((0 as nat, (cp - 9824) as u16))
    } else {
        None
    }
}

/// Closed form of `cp_of` on each tier's value range.
pub proof fn lemma_cp_of_closed(tier: nat, v: nat)
    requires
        tier < 2,
        v < spec_tier_size(tier),
    ensures
        cp_of(tier, v) == if tier == 0 {
            if v < 16384 {
                9792 + v
            } else {
                9824 + v
            }
        } else {
            384 + v
        },
{
    lemma_fundamental_div_mod(v as int, 32);
    if tier == 0 {
        if v < 16384 {
            assert(v / 32 < 512) by (nonlinear_arith)
                requires
                    v < 16384,
            ;
        } else {
            assert(v / 32 >= 512) by (nonlinear_arith)
                requires
                    v >= 16384,
            ;
        }
    }
}

/// Every codepoint a tier uses stays below the surrogate range, so it is a
/// Unicode scalar value and fits in one UTF-16 code unit.
pub proof fn lemma_cp_of_range(tier: nat, v: nat)
    requires
        tier < 2,
        v < spec_tier_size(tier),
    ensures
        cp_of(tier, v) < 0xD800,
{
    lemma_cp_of_closed(tier, v);
}

/// Looking a codepoint up after encoding a value returns tier and value.
pub proof fn lemma_classify_cp_of(tier: nat, v: nat)
    requires
        tier < 2,
        v < spec_tier_size(tier),
    ensures
        classify_cp(cp_of(tier, v)) == Some((tier, v as u16)),
{
    lemma_cp_of_closed(tier, v);
}

/// A classified codepoint is exactly the encoding of its tier and value.
pub proof fn lemma_cp_of_classify(cp: nat)
    requires
        classify_cp(cp) is Some,
    ensures
        ({
            let (tier, v) = classify_cp(cp)->0;
            &&& tier < 2
            &&& (v as nat) < spec_tier_size(tier)
            &&& cp_of(tier, v as nat) == cp
        }),
{
    let (tier, v) = classify_cp(cp)->0;
    lemma_cp_of_closed(tier, v as nat);
}

/// Relies on char::from_u32: it returns the character with the given
/// codepoint exactly when the value is a Unicode scalar value, that is,
/// neither a surrogate nor beyond char::MAX.
pub assume_specification[ char::from_u32 ](u: u32) -> (r: Option<char>)
    ensures
        (r is Some) == (u < 0xD800 || (0xE000 <= u && u <= 0x10FFFF)),
        r is Some ==> r->0 as u32 == u,
;

/// The ordered block-start characters of the given tier's repertoire.
pub fn block_start_chars(tier: usize) -> (r: Vec<char>)
    requires
        tier < 2,
    ensures
        r@.len() == spec_num_blocks(tier as nat),
        forall|i: int|
            0 <= i < r@.len() ==> (#[trigger] r@[i]) as u32 == spec_block_start(
                tier as nat,
                i as nat,
            ),
{
    let n: usize = if tier == 0 {
        1024
    } else {
        4
    };
    let mut starts: Vec<char> = Vec::new();
    let mut i: usize = 0;
    while i < n
        invariant
            tier < 2,
            n == spec_num_blocks(tier as nat),
            i <= n,
            starts@.len() == i,
            forall|k: int|
                0 <= k < i ==> (#[trigger] starts@[k]) as u32 == spec_block_start(
                    tier as nat,
                    k as nat,
                ),
        decreases n - i,
    {
        let cp: u32 = if tier == 0 {
            if i < 512 {
                9792 + 32 * (i as u32)
            } else {
                9824 + 32 * (i as u32)
            }
        } else {
            384 + 32 * (i as u32)
        };
        assert(cp == spec_block_start(tier as nat, i as nat));
        assert(cp < 0xD800);
        let c = char::from_u32(cp).unwrap();
        starts.push(c);
        i += 1;
    }
    starts
}

} // verus!
