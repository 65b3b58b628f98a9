//! Repertoire construction: forward and reverse lookup tables per tier.
use vstd::prelude::*;
use crate::data::spec_num_blocks;
use crate::data::spec_tier_size;
use crate::data::spec_block_start;
use crate::data::cp_of;
use crate::data::classify_cp;
use crate::data::lemma_cp_of_range;
use crate::data::lemma_classify_cp_of;
use crate::data::lemma_cp_of_classify;
use crate::data::block_start_chars;

verus! {

/// Marker in a reverse table for codepoints the repertoire does not cover.
pub const NO_VALUE: u16 = 0xFFFF;

/// The reverse-table entry a tier owes a codepoint: the value the
/// codepoint encodes in that tier, or `NO_VALUE`.
pub open spec fn spec_reverse_entry(tier: nat, cp: nat) -> u16 {
    match classify_cp(cp) {
        Some(tv) => if tv.0 == tier {
            tv.1
        } else {
            0xFFFFu16
        },
        None => 0xFFFFu16,
    }
}

/// One repertoire tier: a forward table from values to codepoints and a
/// reverse table from codepoints back to values.
pub struct Repertoire {
    /// Which tier this repertoire serves.
    pub tier: usize,
    /// Codepoint encoding each value of the tier's value space.
    pub forward: Vec<u16>,
    /// For each possible single-unit codepoint, the value it encodes in
    /// this tier, or `NO_VALUE`.
    pub reverse: Vec<u16>,
}

impl Repertoire {
    /// Both tables are fully built and are exact inverses of each other.
    pub open spec fn wf(self) -> bool {
        &&& (self.tier as nat) < 2
        &&& self.forward@.len() == spec_tier_size(self.tier as nat)
        &&& forall|v: int|
            0 <= v < self.forward@.len() ==> (#[trigger] self.forward@[v]) as nat == cp_of(
                self.tier as nat,
                v as nat,
            )
        &&& self.reverse@.len() == 0x10000
        &&& forall|cp: int|
            0 <= cp < 0x10000 ==> (#[trigger] self.reverse@[cp]) == spec_reverse_entry(
                self.tier as nat,
                cp as nat,
            )
    }

    /// Builds the two tables of one tier from its ordered block-start
    /// characters. Callers must hand over characters that fit in a single
    /// UTF-16 code unit; the repertoire data guarantees that.
    pub fn build(tier: usize, starts: &Vec<char>) -> (r: Repertoire)
        requires
            tier < 2,
            starts@.len() == spec_num_blocks(tier as nat),
            forall|i: int|
                0 <= i < starts@.len() ==> (#[trigger] starts@[i]) as u32 == spec_block_start(
                    tier as nat,
                    i as nat,
                ),
        ensures
            r.wf(),
            r.tier == tier,
    {
        let num_blocks = starts.len();
        let size: usize = 32 * num_blocks;
        let mut forward: Vec<u16> = Vec::new();
        let mut v: usize = 0;
        while v < size
            invariant
                tier < 2,
                num_blocks == spec_num_blocks(tier as nat),
                size == spec_tier_size(tier as nat),
                starts@.len() == num_blocks,
                forall|i: int|
                    0 <= i < starts@.len() ==> (#[trigger] starts@[i]) as u32 == spec_block_start(
                        tier as nat,
                        i as nat,
                    ),
                v <= size,
                forward@.len() == v,
                forall|k: int|
                    0 <= k < v ==> (#[trigger] forward@[k]) as nat == cp_of(tier as nat, k as nat),
            decreases size - v,
        {
            let block = v / 32;
            let offset = v % 32;
            assert(block < num_blocks) by (nonlinear_arith)
                requires
                    block == v / 32,
                    v < size,
                    size == 32 * num_blocks,
            ;
            let c = starts[block];
            let cp: u32 = (c as u32) + (offset as u32);
            proof {
                assert(offset < 32) by (nonlinear_arith)
                    requires
                        offset == v % 32,
                ;
                assert(cp == cp_of(tier as nat, v as nat));
                lemma_cp_of_range(tier as nat, v as nat);
            }
            forward.push(cp as u16);
            v += 1;
        }
        let mut reverse: Vec<u16> = Vec::new();
        let mut cp: usize = 0;
        while cp < 0x10000
            invariant
                cp <= 0x10000,
                reverse@.len() == cp,
                forall|k: int| 0 <= k < cp ==> (#[trigger] reverse@[k]) == 0xFFFFu16,
            decreases 0x10000 - cp,
        {
            reverse.push(NO_VALUE);
            cp += 1;
        }
        let mut v: usize = 0;
        while v < size
            invariant
                tier < 2,
                size == spec_tier_size(tier as nat),
                forward@.len() == size,
                forall|k: int|
                    0 <= k < size ==> (#[trigger] forward@[k]) as nat == cp_of(tier as nat, k as nat),
                v <= size,
                reverse@.len() == 0x10000,
                forall|k: int|
                    0 <= k < 0x10000 ==> (#[trigger] reverse@[k]) == (match classify_cp(k as nat) {
                        Some(tv) => if tv.0 == tier as nat && (tv.1 as nat) < v {
                            tv.1
                        } else {
                            0xFFFFu16
                        },
                        None => 0xFFFFu16,
                    }),
            decreases size - v,
        {
            let target = forward[v];
            proof {
                lemma_cp_of_range(tier as nat, v as nat);
                lemma_classify_cp_of(tier as nat, v as nat);
            }
            reverse.set(target as usize, v as u16);
            proof {
                assert forall|k: int| 0 <= k < 0x10000 implies (#[trigger] reverse@[k]) == (
                match classify_cp(k as nat) {
                    Some(tv) => if tv.0 == tier as nat && (tv.1 as nat) < v + 1 {
                        tv.1
                    } else {
                        0xFFFFu16
                    },
                    None => 0xFFFFu16,
                }) by {
                    if k != target as int && classify_cp(k as nat) is Some {
                        lemma_cp_of_classify(k as nat);
                    }
                }
            }
            v += 1;
        }
        proof {
            assert forall|k: int| 0 <= k < 0x10000 implies (#[trigger] reverse@[k])
                == spec_reverse_entry(tier as nat, k as nat) by {
                if classify_cp(k as nat) is Some {
                    lemma_cp_of_classify(k as nat);
                }
            }
        }
        Repertoire { tier, forward, reverse }
    }
}

/// The full set of repertoires, one per tier, shared read-only by every
/// encode and decode call.
pub struct LookupTables {
    /// The repertoires, indexed by tier.
    pub repertoires: Vec<Repertoire>,
}

impl LookupTables {
    /// Every tier's repertoire is built and stored under its own index.
    pub open spec fn wf(self) -> bool {
        &&& self.repertoires@.len() == 2
        &&& forall|t: int|
            0 <= t < 2 ==> (#[trigger] self.repertoires@[t]).wf() && self.repertoires@[t].tier == t
    }

    /// Builds the tables of both tiers.
    pub fn new() -> (r: LookupTables)
        ensures
            r.wf(),
    {
        let starts0 = block_start_chars(0);
        let starts1 = block_start_chars(1);
        let mut repertoires: Vec<Repertoire> = Vec::new();
        repertoires.push(Repertoire::build(0, &starts0));
        repertoires.push(Repertoire::build(1, &starts1));
        LookupTables { repertoires }
    }
}

/// The set of codepoints a repertoire's reverse table covers.
pub open spec fn tier_codepoints(r: Repertoire) -> Set<int> {
    Set::new(|cp: int| 0 <= cp < 0x10000 && r.reverse@[cp] != 0xFFFFu16)
}

/// Distinct tiers cover disjoint sets of codepoints: no codepoint is
/// present in the reverse tables of two different tiers.
pub proof fn lemma_tier_disjointness(tables: LookupTables, i: int, j: int)
    requires
        tables.wf(),
        0 <= i < 2,
        0 <= j < 2,
        i != j,
    ensures
        tier_codepoints(tables.repertoires@[i]).disjoint(tier_codepoints(tables.repertoires@[j])),
{
    let a = tables.repertoires@[i];
    let b = tables.repertoires@[j];
    assert forall|cp: int| tier_codepoints(a).contains(cp) implies !tier_codepoints(b).contains(
        cp,
    ) by {
        if 0 <= cp < 0x10000 {
            assert(a.reverse@[cp] == spec_reverse_entry(i as nat, cp as nat));
            assert(b.reverse@[cp] == spec_reverse_entry(j as nat, cp as nat));
        }
    }
}

/// A well-formed repertoire's tables are exact inverses: every forward
/// entry maps back to its value, and every codepoint present in the
/// reverse table maps back to itself through the forward table.
pub proof fn lemma_tables_inverse(r: Repertoire)
    requires
        r.wf(),
    ensures
        forall|v: int|
            0 <= v < r.forward@.len() ==> (#[trigger] r.reverse@[r.forward@[v] as int]) == v,
        forall|cp: int|
            0 <= cp < 0x10000 && (#[trigger] r.reverse@[cp]) != 0xFFFFu16 ==> (
            r.reverse@[cp] as int) < r.forward@.len() && r.forward@[r.reverse@[cp] as int] as int
                == cp,
{
    assert forall|v: int| 0 <= v < r.forward@.len() implies (#[trigger] r.reverse@[r.forward@[v] as int])
        == v by {
        lemma_classify_cp_of(r.tier as nat, v as nat);
        lemma_cp_of_range(r.tier as nat, v as nat);
    }
    assert forall|cp: int| 0 <= cp < 0x10000 && (#[trigger] r.reverse@[cp]) != 0xFFFFu16 implies (
    r.reverse@[cp] as int) < r.forward@.len() && r.forward@[r.reverse@[cp] as int] as int
        == cp by {
        lemma_cp_of_classify(cp as nat);
    }
}

} // verus!
