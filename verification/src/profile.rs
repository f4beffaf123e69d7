//! Capacity profiling.
//!
//! Capacity in bits is the sum over sites of the floor of the base-two
//! logarithm of the variant count.  With this table every site has exactly
//! two variants, so every site carries one bit.

use vstd::prelude::*;

use crate::scan::{sites_view, EncodingSite, SpecSite};

verus! {

/// Floor of the base-two logarithm (zero below two).
pub open spec fn floor_log2(n: int) -> int
    decreases n,
{
    if n < 2 {
        0
    } else {
        1 + floor_log2(n / 2)
    }
}

/// The payload bits one site can carry.
pub open spec fn site_bits(s: SpecSite) -> int {
    floor_log2(s.variants.len() as int)
}

/// The bits carried by the sites at index `k` and after.
pub open spec fn capacity_from(ss: Seq<SpecSite>, k: int) -> int
    decreases ss.len() - k,
{
    if 0 <= k < ss.len() {
        site_bits(ss[k]) + capacity_from(ss, k + 1)
    } else {
        0
    }
}

/// Total bit capacity of a site list.
pub open spec fn capacity_bits(ss: Seq<SpecSite>) -> int {
    capacity_from(ss, 0)
}

/// When every site has exactly two variants, the capacity is the site count.
pub proof fn lemma_capacity_two_variants(ss: Seq<SpecSite>, k: int)
    requires
        0 <= k <= ss.len(),
        forall|j: int| 0 <= j < ss.len() ==> (#[trigger] ss[j]).variants.len() == 2,
    ensures
        capacity_from(ss, k) == ss.len() - k,
    decreases ss.len() - k,
{
    if k < ss.len() {
        lemma_capacity_two_variants(ss, k + 1);
        assert(floor_log2(1) == 0);
        assert(floor_log2(2) == 1);
    }
}

/// What `profile` reports of a binary and its safe ranges.
#[derive(Clone, Copy, PartialEq, Eq, Structural, Debug)]
pub struct CapacityProfile {
    /// Total capacity in bits.
    pub bits: usize,
    /// Total capacity in whole bytes (`bits / 8`, rounded down).
    pub bytes: usize,
    /// Number of encoding sites found.
    pub sites: usize,
}

/// Sum the bit capacity of a site list.  A pure function of the list: no
/// mutation.
pub fn profile_sites(sites: &Vec<EncodingSite>) -> (p: CapacityProfile)
    requires
        forall|j: int|
            0 <= j < sites@.len() ==> (#[trigger] sites_view(sites@)[j]).variants.len() == 2,
    ensures
        p.bits as int == capacity_bits(sites_view(sites@)),
        p.bytes == p.bits / 8,
        p.sites == sites@.len(),
{
    proof {
        lemma_capacity_two_variants(sites_view(sites@), 0);
    }
    let bits = sites.len();
    CapacityProfile { bits, bytes: bits / 8, sites: bits }
}

} // verus!
