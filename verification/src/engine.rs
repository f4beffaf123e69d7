//! The three engine operations, over normalized safe ranges.
//!
//! `profile` reports the capacity a binary offers; `embed` hides a payload in
//! a mutable copy of the section; `extract` re-derives the same ordered site
//! list by re-scanning the live bytes — it trusts no stored metadata — and
//! recovers the payload.  Callers normalize their ranges first with
//! [`crate::ranges::normalize`].

use vstd::prelude::*;

use crate::codec::{
    clamp_usize,
    decode_ok,
    decode_payload,
    decoded_payload,
    declared_len,
    encode_bits,
    encode_payload,
};
use crate::embed::{embed_bits, spec_embed};
use crate::errors::StegError;
use crate::extract::{extract_bits, extracted_bits, first_corrupt_from, lemma_wf_implies_shape};
use crate::profile::{capacity_bits, profile_sites, CapacityProfile};
use crate::ranges::{ranges_normal, SafeRange};
use crate::scan::{
    first_undecodable_from,
    lemma_scan_wf,
    scan,
    site_wf,
    sites_view,
    spec_scan,
    BinaryView,
};

verus! {

/// Profile a binary for steganographic storage capacity: total bits, whole
/// bytes, and the number of encoding sites, over the given normalized safe
/// ranges.
pub fn profile(view: &BinaryView, ranges: &Vec<SafeRange>) -> (out: Result<
    CapacityProfile,
    StegError,
>)
    requires
        ranges_normal(ranges@, view.bytes@.len() as int),
    ensures
        match out {
            Ok(p) => {
                &&& first_undecodable_from(view.bytes@, ranges@, view.bitness, 0) is None
                &&& p.bits as int == capacity_bits(spec_scan(view.bytes@, ranges@, view.bitness))
                &&& p.bytes == p.bits / 8
                &&& p.sites == spec_scan(view.bytes@, ranges@, view.bitness).len()
            },
            Err(e) => {
                &&& first_undecodable_from(view.bytes@, ranges@, view.bitness, 0) matches Some(r)
                    && e == (StegError::Decode { offset: r.start })
            },
        },
{
    let blen = view.bytes.len();
    let sites = match scan(view, ranges) {
        Ok(s) => s,
        Err(e) => {
            return Err(e);
        },
    };
    proof {
        lemma_scan_wf(view.bytes@, ranges@, view.bitness);
        assert forall|j: int| 0 <= j < sites@.len() implies (#[trigger] sites_view(
            sites@,
        )[j]).variants.len() == 2 by {
            assert(site_wf(view.bytes@, sites_view(sites@)[j]));
        }
    }
    Ok(profile_sites(&sites))
}

/// Embed a payload into a mutable copy of the section's bytes, over the
/// given normalized safe ranges.  Nothing is written unless the whole
/// encoded bitstream — length prefix included — fits the available capacity.
pub fn embed(view: &BinaryView, ranges: &Vec<SafeRange>, payload: &Vec<u8>) -> (out: Result<
    Vec<u8>,
    StegError,
>)
    requires
        ranges_normal(ranges@, view.bytes@.len() as int),
    ensures
        ({
            let b = view.bytes@;
            let sites = spec_scan(b, ranges@, view.bitness);
            let bits = encode_bits(payload@);
            match out {
                Ok(nb) => {
                    &&& first_undecodable_from(b, ranges@, view.bitness, 0) is None
                    &&& bits.len() <= capacity_bits(sites)
                    &&& nb@ == spec_embed(b, sites, bits)
                    &&& nb@.len() == b.len()
                },
                Err(e) => {
                    ||| (first_undecodable_from(b, ranges@, view.bitness, 0) matches Some(r) && e
                        == (StegError::Decode { offset: r.start }))
                    ||| (first_undecodable_from(b, ranges@, view.bitness, 0) is None && bits.len()
                        > capacity_bits(sites) && e == (StegError::CapacityExceeded {
                        needed: (64 + 8 * payload@.len()) as usize,
                        available: sites.len() as usize,
                    }))
                },
            }
        }),
{
    let blen = view.bytes.len();
    let sites = match scan(view, ranges) {
        Ok(s) => s,
        Err(e) => {
            return Err(e);
        },
    };
    proof {
        lemma_scan_wf(view.bytes@, ranges@, view.bitness);
    }
    let bits = encode_payload(payload);
    embed_bits(&view.bytes, &sites, &bits)
}

/// Extract the hidden payload from the section's bytes, over the given
/// normalized safe ranges.  Re-runs the scanner on the live bytes, reads the
/// variant chosen at each site, and decodes the recovered bitstream.
pub fn extract(view: &BinaryView, ranges: &Vec<SafeRange>) -> (out: Result<Vec<u8>, StegError>)
    requires
        ranges_normal(ranges@, view.bytes@.len() as int),
    ensures
        ({
            let b = view.bytes@;
            let sites = spec_scan(b, ranges@, view.bitness);
            let bits = extracted_bits(b, sites);
            match out {
                Ok(p) => {
                    &&& first_undecodable_from(b, ranges@, view.bitness, 0) is None
                    &&& first_corrupt_from(b, sites, 0) is None
                    &&& decode_ok(bits)
                    &&& p@ == decoded_payload(bits)
                },
                Err(e) => {
                    ||| (first_undecodable_from(b, ranges@, view.bitness, 0) matches Some(r) && e
                        == (StegError::Decode { offset: r.start }))
                    ||| (first_undecodable_from(b, ranges@, view.bitness, 0) is None && (
                    first_corrupt_from(b, sites, 0) matches Some(o) && e == (
                    StegError::CorruptSite { offset: o as usize })))
                    ||| (first_undecodable_from(b, ranges@, view.bitness, 0) is None
                        && first_corrupt_from(b, sites, 0) is None && !decode_ok(bits) && e == (
                    StegError::InsufficientData {
                        needed: clamp_usize(
                            if bits.len() < 64 {
                                64
                            } else {
                                64 + 8 * declared_len(bits) as int
                            },
                        ),
                        available: bits.len() as usize,
                    }))
                },
            }
        }),
{
    let blen = view.bytes.len();
    let sites = match scan(view, ranges) {
        Ok(s) => s,
        Err(e) => {
            return Err(e);
        },
    };
    proof {
        lemma_scan_wf(view.bytes@, ranges@, view.bitness);
        lemma_wf_implies_shape(view.bytes@, sites_view(sites@));
    }
    let bits = match extract_bits(&view.bytes, &sites) {
        Ok(bs) => bs,
        Err(e) => {
            return Err(e);
        },
    };
    decode_payload(&bits)
}

} // verus!
