//! The extractor.
//!
//! Reads the live bytes at each site, looks their position up among the
//! site's variants (exact byte match required), and appends that position as
//! a payload bit.  Live bytes matching no variant mean the binary was altered
//! outside the embedding protocol, or the safe ranges differ from those used
//! at embed time: that is a [`StegError::CorruptSite`].  Extraction reads
//! only the site intervals, so bytes outside every site cannot affect it.

use vstd::prelude::*;

use crate::errors::StegError;
use crate::scan::{bytes_match, sites_view, sites_wf, EncodingSite, SpecSite};

verus! {

/// The position of the live bytes at site `s` among its variants, or -1 when
/// they match none.
pub open spec fn variant_match(b: Seq<u8>, s: SpecSite) -> int {
    if b.subrange(s.offset, s.offset + s.len) == s.variants[0] {
        0
    } else if b.subrange(s.offset, s.offset + s.len) == s.variants[1] {
        1
    } else {
        -1
    }
}

/// What extraction needs of a site list, against a buffer of `blen` bytes.
/// Unlike [`sites_wf`] it does not tie the buffer's bytes to the sites'
/// current variants: extraction must also work on a buffer that was altered
/// after the sites were derived.
pub open spec fn sites_shape_wf(blen: int, ss: Seq<SpecSite>) -> bool {
    forall|k: int|
        0 <= k < ss.len() ==> {
            let s = #[trigger] ss[k];
            &&& 0 <= s.offset
            &&& 1 <= s.len
            &&& s.offset + s.len <= blen
            &&& s.variants.len() == 2
            &&& s.variants[0].len() == s.len
            &&& s.variants[1].len() == s.len
        }
}

/// A list fit for embedding is fit for extraction.
pub proof fn lemma_wf_implies_shape(b: Seq<u8>, ss: Seq<SpecSite>)
    requires
        sites_wf(b, ss),
    ensures
        sites_shape_wf(b.len() as int, ss),
{
}

/// The first site, at or after index `k`, whose live bytes match no variant.
pub open spec fn first_corrupt_from(b: Seq<u8>, ss: Seq<SpecSite>, k: int) -> Option<int>
    decreases ss.len() - k,
{
    if 0 <= k < ss.len() {
        if variant_match(b, ss[k]) == -1 {
            Some(ss[k].offset)
        } else {
            first_corrupt_from(b, ss, k + 1)
        }
    } else {
        None
    }
}

/// The bitstream the live bytes carry (meaningful when no site is corrupt).
pub open spec fn extracted_bits(b: Seq<u8>, ss: Seq<SpecSite>) -> Seq<bool> {
    Seq::new(ss.len(), |k: int| variant_match(b, ss[k]) == 1)
}

/// Read back the bitstream carried by the sites' live bytes.  Fails with
/// [`StegError::CorruptSite`] at the first site whose bytes match none of its
/// variants.
pub fn extract_bits(bytes: &Vec<u8>, sites: &Vec<EncodingSite>) -> (out: Result<
    Vec<bool>,
    StegError,
>)
    requires
        sites_shape_wf(bytes@.len() as int, sites_view(sites@)),
    ensures
        match out {
            Ok(bits) => {
                &&& first_corrupt_from(bytes@, sites_view(sites@), 0) is None
                &&& bits@ == extracted_bits(bytes@, sites_view(sites@))
            },
            Err(e) => {
                &&& first_corrupt_from(bytes@, sites_view(sites@), 0) matches Some(o) && e == (
                StegError::CorruptSite { offset: o as usize })
            },
        },
{
    let ghost ss = sites_view(sites@);
    let n = sites.len();
    let mut bits: Vec<bool> = Vec::new();
    let mut k: usize = 0;
    while k < n
        invariant
            n == sites@.len(),
            ss == sites_view(sites@),
            sites_shape_wf(bytes@.len() as int, ss),
            0 <= k <= n,
            bits@.len() == k,
            first_corrupt_from(bytes@, ss, 0) == first_corrupt_from(bytes@, ss, k as int),
            forall|j: int| 0 <= j < k ==> bits@[j] == (variant_match(bytes@, ss[j]) == 1),
        decreases n - k,
    {
        let site = &sites[k];
        proof {
            assert(ss[k as int] == site@);
        }
        let m0 = bytes_match(bytes, site.offset, &site.variants[0]);
        let m1 = bytes_match(bytes, site.offset, &site.variants[1]);
        if m0 {
            bits.push(false);
        } else if m1 {
            bits.push(true);
        } else {
            return Err(StegError::CorruptSite { offset: site.offset });
        }
        k = k + 1;
    }
    proof {
        assert(bits@ =~= extracted_bits(bytes@, ss));
    }
    Ok(bits)
}

} // verus!
