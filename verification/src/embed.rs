//! The embedder.
//!
//! Walks the sites in their fixed order; site `k` consumes payload bit `k`
//! and its bytes are overwritten with the variant that bit selects.  Sites
//! past the end of the bitstream keep their current variant, so every byte
//! outside the rewritten sites is exactly the original's.  Capacity is
//! checked against the whole bitstream before any byte is written: embedding
//! is atomic with respect to success or failure.

use vstd::prelude::*;

use crate::errors::StegError;
use crate::profile::{capacity_bits, lemma_capacity_two_variants};
use crate::scan::{site_wf, sites_view, sites_wf, EncodingSite, SpecSite};

verus! {

/// `b` with `v` written at offset `off`.
pub open spec fn splice(b: Seq<u8>, off: int, v: Seq<u8>) -> Seq<u8> {
    b.take(off) + v + b.skip(off + v.len())
}

/// What a splice does, byte by byte.
pub proof fn lemma_splice(b: Seq<u8>, off: int, v: Seq<u8>)
    requires
        0 <= off,
        off + v.len() <= b.len(),
    ensures
        splice(b, off, v).len() == b.len(),
        forall|m: int| 0 <= m < off ==> splice(b, off, v)[m] == b[m],
        forall|m: int| off <= m < off + v.len() ==> splice(b, off, v)[m] == v[m - off],
        forall|m: int| off + v.len() <= m < b.len() ==> splice(b, off, v)[m] == b[m],
        splice(b, off, v).subrange(off, off + v.len()) == v,
{
    assert(splice(b, off, v).subrange(off, off + v.len()) =~= v);
}

/// The variant index site `k` ends up holding: payload bit `k` where the
/// stream reaches, the site's current variant where it does not.
pub open spec fn chosen_index(ss: Seq<SpecSite>, bits: Seq<bool>, k: int) -> int {
    if k < bits.len() {
        if bits[k] {
            1int
        } else {
            0
        }
    } else {
        ss[k].cur
    }
}

/// The bytes after rewriting the sites at index `k` and after.
pub open spec fn embed_from(b: Seq<u8>, ss: Seq<SpecSite>, bits: Seq<bool>, k: int) -> Seq<u8>
    decreases ss.len() - k,
{
    if 0 <= k < ss.len() {
        embed_from(
            splice(b, ss[k].offset, ss[k].variants[chosen_index(ss, bits, k)]),
            ss,
            bits,
            k + 1,
        )
    } else {
        b
    }
}

/// The bytes after embedding a bitstream into a site list.
pub open spec fn spec_embed(b: Seq<u8>, ss: Seq<SpecSite>, bits: Seq<bool>) -> Seq<u8> {
    embed_from(b, ss, bits, 0)
}

/// An owned copy of the bytes.
fn copy_bytes(bytes: &Vec<u8>) -> (out: Vec<u8>)
    ensures
        out@ == bytes@,
{
    let n = bytes.len();
    let mut out: Vec<u8> = Vec::new();
    let mut k: usize = 0;
    while k < n
        invariant
            n == bytes@.len(),
            0 <= k <= n,
            out@ == bytes@.take(k as int),
        decreases n - k,
    {
        out.push(bytes[k]);
        proof {
            assert(out@ =~= bytes@.take(k + 1));
        }
        k = k + 1;
    }
    proof {
        assert(bytes@.take(n as int) =~= bytes@);
    }
    out
}

/// Embed a payload bitstream into a mutable copy of the bytes.  Fails with
/// [`StegError::CapacityExceeded`] — before writing anything — when the
/// stream holds more bits than the sites can carry.  Outside the rewritten
/// site intervals the result is a byte-for-byte copy of the original.
pub fn embed_bits(bytes: &Vec<u8>, sites: &Vec<EncodingSite>, bits: &Vec<bool>) -> (out: Result<
    Vec<u8>,
    StegError,
>)
    requires
        sites_wf(bytes@, sites_view(sites@)),
    ensures
        match out {
            Ok(nb) => {
                &&& bits@.len() <= capacity_bits(sites_view(sites@))
                &&& nb@ == spec_embed(bytes@, sites_view(sites@), bits@)
                &&& nb@.len() == bytes@.len()
            },
            Err(e) => {
                &&& bits@.len() > capacity_bits(sites_view(sites@))
                &&& e == (StegError::CapacityExceeded {
                    needed: bits@.len() as usize,
                    available: sites@.len() as usize,
                })
            },
        },
{
    let ghost ss = sites_view(sites@);
    proof {
        lemma_capacity_two_variants(ss, 0);
    }
    let n = sites.len();
    if bits.len() > n {
        return Err(StegError::CapacityExceeded { needed: bits.len(), available: n });
    }
    let mut out = copy_bytes(bytes);
    let mut k: usize = 0;
    while k < n
        invariant
            n == sites@.len(),
            ss == sites_view(sites@),
            sites_wf(bytes@, ss),
            out@.len() == bytes@.len(),
            0 <= k <= n,
            embed_from(out@, ss, bits@, k as int) == spec_embed(bytes@, ss, bits@),
        decreases n - k,
    {
        let site = &sites[k];
        proof {
            assert(ss[k as int] == site@);
            assert(site_wf(bytes@, ss[k as int]));
        }
        let vi: usize = if k < bits.len() {
            if bits[k] {
                1
            } else {
                0
            }
        } else {
            site.current_variant_index
        };
        let v = &site.variants[vi];
        proof {
            assert(v@ == ss[k as int].variants[vi as int]);
            assert(v@.len() == ss[k as int].len);
        }
        let off = site.offset;
        let vn = v.len();
        let outn = out.len();
        let ghost prev = out@;
        let mut j: usize = 0;
        while j < vn
            invariant
                vn == v@.len(),
                outn == out@.len(),
                off + vn <= outn,
                out@.len() == prev.len(),
                0 <= j <= vn,
                forall|m: int| 0 <= m < off ==> out@[m] == prev[m],
                forall|m: int| off <= m < off + j ==> out@[m] == v@[m - off],
                forall|m: int| off + j <= m < prev.len() ==> out@[m] == prev[m],
            decreases vn - j,
        {
            out.set(off + j, v[j]);
            j = j + 1;
        }
        proof {
            lemma_splice(prev, off as int, v@);
            assert(out@ =~= splice(prev, off as int, v@));
            assert(chosen_index(ss, bits@, k as int) == vi as int);
        }
        k = k + 1;
    }
    Ok(out)
}

} // verus!
