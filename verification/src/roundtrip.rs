//! The engine's central laws.
//!
//! The round-trip law: embedding a payload that fits the capacity and then
//! re-scanning and extracting recovers exactly that payload.  Its proof rests
//! on scan stability — rewriting sites with their own variants leaves the
//! re-derived site list unchanged but for the chosen variant indices — and on
//! the codec round trip.  Scanning itself is a pure function of the bytes and
//! ranges, so scanning twice yields identical site lists; and extraction
//! reads only the site intervals, so bytes outside every site cannot change
//! what is recovered.

use vstd::prelude::*;

use crate::codec::{decode_ok, decoded_payload, encode_bits, lemma_codec_roundtrip};
use crate::embed::{chosen_index, embed_from, lemma_splice, spec_embed, splice};
use crate::extract::{extracted_bits, first_corrupt_from, variant_match};
use crate::insn::{lemma_decode_len, lemma_decode_local, spec_decode, Bitness};
use crate::profile::{capacity_bits, capacity_from, floor_log2, lemma_capacity_two_variants};
use crate::ranges::{ranges_normal, SafeRange};
use crate::scan::{
    first_undecodable_from,
    is_site,
    lemma_scan_wf,
    site_wf,
    sites_wf,
    spec_scan,
    spec_scan_from,
    spec_scan_range,
    spec_site_of,
    SpecSite,
};
use crate::table::{lemma_decode_gives_variant, lemma_semantics_preserved};

verus! {

/// Is offset `m` inside the interval of some site at index `k` or later?
pub open spec fn in_sites_from(m: int, ss: Seq<SpecSite>, k: int) -> bool {
    exists|l: int| k <= l < ss.len() && (#[trigger] ss[l]).offset <= m < ss[l].offset + ss[l].len
}

/// Is offset `m` inside the interval of some site of the list?
pub open spec fn in_sites(m: int, ss: Seq<SpecSite>) -> bool {
    in_sites_from(m, ss, 0)
}

/// Does the buffer hold one of the site's variants at the site?
pub open spec fn holds_variant(b: Seq<u8>, s: SpecSite) -> bool {
    exists|j: int|
        0 <= j < s.variants.len() && b.subrange(s.offset, s.offset + s.len) == s.variants[j]
}

/// Two site lists that agree on everything but the chosen variant indices.
pub open spec fn sites_same_mod_cur(s1: Seq<SpecSite>, s2: Seq<SpecSite>) -> bool {
    &&& s1.len() == s2.len()
    &&& forall|k: int|
        0 <= k < s1.len() ==> (#[trigger] s1[k]).offset == s2[k].offset && s1[k].len == s2[k].len
            && s1[k].variants == s2[k].variants
}

/// The layout a site list keeps whatever the buffer's bytes: bounds, two
/// equal-length variants apiece, indices in range, ascending and disjoint.
pub open spec fn sites_layout_wf(blen: int, ss: Seq<SpecSite>) -> bool {
    &&& forall|k: int|
        0 <= k < ss.len() ==> {
            let s = #[trigger] ss[k];
            &&& 0 <= s.offset
            &&& 1 <= s.len
            &&& s.offset + s.len <= blen
            &&& s.variants.len() == 2
            &&& s.variants[0].len() == s.len
            &&& s.variants[1].len() == s.len
            &&& (s.cur == 0 || s.cur == 1)
        }
    &&& forall|k: int|
        0 <= k < ss.len() - 1 ==> (#[trigger] ss[k]).offset + ss[k].len <= ss[k + 1].offset
}

/// A list well formed against a buffer has that buffer's layout.
pub proof fn lemma_wf_implies_layout(b: Seq<u8>, ss: Seq<SpecSite>)
    requires
        sites_wf(b, ss),
    ensures
        sites_layout_wf(b.len() as int, ss),
{
    assert forall|k: int| 0 <= k < ss.len() implies {
        let s = #[trigger] ss[k];
        &&& 0 <= s.offset
        &&& 1 <= s.len
        &&& s.offset + s.len <= b.len()
        &&& s.variants.len() == 2
        &&& s.variants[0].len() == s.len
        &&& s.variants[1].len() == s.len
        &&& (s.cur == 0 || s.cur == 1)
    } by {
        assert(site_wf(b, ss[k]));
    }
}

/// Sites of a layout are pairwise disjoint, not only consecutively.
pub proof fn lemma_layout_sorted(blen: int, ss: Seq<SpecSite>, k: int, l: int)
    requires
        sites_layout_wf(blen, ss),
        0 <= k < l < ss.len(),
    ensures
        ss[k].offset + ss[k].len <= ss[l].offset,
    decreases l - k,
{
    if k + 1 < l {
        lemma_layout_sorted(blen, ss, k + 1, l);
    }
}

/// Decoding reads no byte outside `[off, end)`: buffers that agree there
/// decode alike, whether or not they decode at all.
#[verifier::rlimit(100)]
#[verifier::spinoff_prover]
proof fn lemma_decode_same_window(b1: Seq<u8>, b2: Seq<u8>, off: int, end: int, bit: Bitness)
    requires
        end <= b1.len(),
        end <= b2.len(),
        forall|k: int| off <= k < end ==> b1[k] == b2[k],
    ensures
        spec_decode(b1, off, end, bit) == spec_decode(b2, off, end, bit),
{
    if 0 <= off < end && off <= usize::MAX {
        assert(b2[off] == b1[off]);
        let p66 = b1[off] == 0x66;
        let i1: int = if p66 {
            off + 1
        } else {
            off
        };
        if i1 < end {
            assert(b2[i1] == b1[i1]);
            let has_rex = bit is B64 && 0x40 <= b1[i1] < 0x50;
            let iop: int = if has_rex {
                i1 + 1
            } else {
                i1
            };
            if iop < end {
                assert(b2[iop] == b1[iop]);
                if iop + 1 < end {
                    assert(b2[iop + 1] == b1[iop + 1]);
                }
                if iop + 2 < end {
                    assert(b2[iop + 2] == b1[iop + 2]);
                }
            }
        }
    }
}

/// What embedding does to the bytes: nothing outside the site intervals, and
/// each site ends up holding the variant its payload bit (or, past the
/// stream, its current index) selects.
pub proof fn lemma_embed_shape(b: Seq<u8>, ss: Seq<SpecSite>, bits: Seq<bool>, k: int)
    requires
        sites_layout_wf(b.len() as int, ss),
        0 <= k <= ss.len(),
    ensures
        embed_from(b, ss, bits, k).len() == b.len(),
        forall|m: int|
            0 <= m < b.len() && !in_sites_from(m, ss, k) ==> embed_from(b, ss, bits, k)[m] == b[m],
        forall|l: int|
            k <= l < ss.len() ==> #[trigger] embed_from(b, ss, bits, k).subrange(
                ss[l].offset,
                ss[l].offset + ss[l].len,
            ) == ss[l].variants[chosen_index(ss, bits, l)],
    decreases ss.len() - k,
{
    if k < ss.len() {
        let s = ss[k];
        let ci = chosen_index(ss, bits, k);
        assert(0 <= ci < 2);
        let v = s.variants[ci];
        let b1 = splice(b, s.offset, v);
        lemma_splice(b, s.offset, v);
        lemma_embed_shape(b1, ss, bits, k + 1);
        let r = embed_from(b, ss, bits, k);
        assert(r == embed_from(b1, ss, bits, k + 1));
        assert forall|m: int| 0 <= m < b.len() && !in_sites_from(m, ss, k) implies r[m] == b[m] by {
            assert(!in_sites_from(m, ss, k + 1)) by {
                if in_sites_from(m, ss, k + 1) {
                    let l = choose|l: int|
                        k + 1 <= l < ss.len() && (#[trigger] ss[l]).offset <= m < ss[l].offset
                            + ss[l].len;
                    assert(k <= l < ss.len());
                }
            }
            assert(r[m] == b1[m]);
            assert(!(s.offset <= m < s.offset + s.len));
        }
        assert forall|l: int| k <= l < ss.len() implies #[trigger] r.subrange(
            ss[l].offset,
            ss[l].offset + ss[l].len,
        ) == ss[l].variants[chosen_index(ss, bits, l)] by {
            if l == k {
                assert forall|m: int| s.offset <= m < s.offset + s.len implies r[m] == b1[m] by {
                    assert(!in_sites_from(m, ss, k + 1)) by {
                        if in_sites_from(m, ss, k + 1) {
                            let l2 = choose|l2: int|
                                k + 1 <= l2 < ss.len() && (#[trigger] ss[l2]).offset <= m
                                    < ss[l2].offset + ss[l2].len;
                            lemma_layout_sorted(b.len() as int, ss, k, l2);
                        }
                    }
                }
                assert(b1.subrange(s.offset, s.offset + s.len) == v);
                assert(r.subrange(s.offset, s.offset + s.len) =~= b1.subrange(
                    s.offset,
                    s.offset + s.len,
                ));
            }
        }
    }
}

/// The hypotheses of scan stability carry from a chain position to the next:
/// bytes after the decoded instruction changed only inside the suffix scan's
/// sites, and those sites still hold variants.
proof fn lemma_suffix_hyps(
    b: Seq<u8>,
    b2: Seq<u8>,
    off: int,
    end: int,
    bit: Bitness,
    ilen: int,
    rest: Seq<SpecSite>,
    ss: Seq<SpecSite>,
    shift: int,
)
    requires
        1 <= ilen,
        off + ilen <= end,
        shift == 0 || shift == 1,
        shift == 1 ==> ss.len() > 0 && ss[0].offset == off && ss[0].len == ilen,
        ss.len() == rest.len() + shift,
        forall|l: int| 0 <= l < rest.len() ==> ss[l + shift] == rest[l],
        forall|m: int| off <= m < end && !in_sites(m, ss) ==> b2[m] == b[m],
        forall|l: int| 0 <= l < ss.len() ==> holds_variant(b2, #[trigger] ss[l]),
    ensures
        forall|m: int| off + ilen <= m < end && !in_sites(m, rest) ==> b2[m] == b[m],
        forall|l: int| 0 <= l < rest.len() ==> holds_variant(b2, #[trigger] rest[l]),
{
    assert forall|m: int| off + ilen <= m < end && !in_sites(m, rest) implies b2[m] == b[m] by {
        assert(!in_sites(m, ss)) by {
            if in_sites(m, ss) {
                let l = choose|l: int|
                    0 <= l < ss.len() && (#[trigger] ss[l]).offset <= m < ss[l].offset + ss[l].len;
                if l >= shift {
                    assert(ss[l] == rest[l - shift]);
                    assert(in_sites(m, rest));
                }
            }
        }
    }
    assert forall|l: int| 0 <= l < rest.len() implies holds_variant(b2, #[trigger] rest[l]) by {
        assert(ss[l + shift] == rest[l]);
        assert(holds_variant(b2, ss[l + shift]));
    }
}

/// Scan stability over one range: if the bytes changed only inside this
/// scan's site intervals, and each such site still holds one of its variants,
/// the re-scan finds the same sites (up to the chosen variant indices), and
/// decodability at the range start is unchanged.
#[verifier::rlimit(100)]
#[verifier::spinoff_prover]
pub proof fn lemma_scan_range_stable(b: Seq<u8>, b2: Seq<u8>, off: int, end: int, bit: Bitness)
    requires
        0 <= off,
        end <= b.len(),
        end <= usize::MAX,
        b2.len() == b.len(),
        forall|m: int|
            off <= m < end && !in_sites(m, spec_scan_range(b, off, end, bit)) ==> b2[m] == b[m],
        forall|l: int|
            0 <= l < spec_scan_range(b, off, end, bit).len() ==> holds_variant(
                b2,
                #[trigger] spec_scan_range(b, off, end, bit)[l],
            ),
    ensures
        sites_same_mod_cur(spec_scan_range(b2, off, end, bit), spec_scan_range(b, off, end, bit)),
        spec_decode(b2, off, end, bit) is Some <==> spec_decode(b, off, end, bit) is Some,
    decreases end - off,
{
    let ss = spec_scan_range(b, off, end, bit);
    if off >= end {
        assert(spec_scan_range(b2, off, end, bit) == Seq::<SpecSite>::empty());
    } else {
        match spec_decode(b, off, end, bit) {
            None => {
                assert forall|m: int| off <= m < end implies b2[m] == b[m] by {
                    assert(!in_sites(m, ss));
                }
                lemma_decode_same_window(b, b2, off, end, bit);
                assert(spec_scan_range(b2, off, end, bit) == Seq::<SpecSite>::empty());
            },
            Some(i) => {
                lemma_decode_len(b, off, end, bit);
                let rest = spec_scan_range(b, off + i.len, end, bit);
                crate::scan::lemma_scan_range_wf(b, off + i.len, end, bit);
                if is_site(i) {
                    let s0 = spec_site_of(b, i);
                    assert(ss == seq![s0] + rest);
                    assert(ss[0] == s0);
                    assert(forall|l: int| 0 <= l < rest.len() ==> ss[l + 1] == rest[l]);
                    assert(holds_variant(b2, s0));
                    lemma_decode_gives_variant(b, off, end, bit);
                    let j = choose|j: int|
                        0 <= j < s0.variants.len() && b2.subrange(s0.offset, s0.offset + s0.len)
                            == s0.variants[j];
                    lemma_semantics_preserved(b2, end, bit, i, j);
                    assert(spec_decode(b2, off, end, bit) == Some(i));
                    lemma_suffix_hyps(b, b2, off, end, bit, i.len as int, rest, ss, 1);
                    lemma_scan_range_stable(b, b2, off + i.len, end, bit);
                    let rest2 = spec_scan_range(b2, off + i.len, end, bit);
                    let ss2 = spec_scan_range(b2, off, end, bit);
                    assert(ss2 == seq![spec_site_of(b2, i)] + rest2);
                    assert forall|k: int| 0 <= k < ss2.len() implies (#[trigger] ss2[k]).offset
                        == ss[k].offset && ss2[k].len == ss[k].len && ss2[k].variants
                        == ss[k].variants by {
                        if k > 0 {
                            assert(ss2[k] == rest2[k - 1]);
                            assert(ss[k] == rest[k - 1]);
                        } else {
                            assert(ss2[0] == spec_site_of(b2, i));
                        }
                    }
                } else {
                    assert(ss == rest);
                    assert forall|m: int| off <= m < off + i.len implies b2[m] == b[m] by {
                        assert(!in_sites(m, ss)) by {
                            if in_sites(m, ss) {
                                let l = choose|l: int|
                                    0 <= l < ss.len() && (#[trigger] ss[l]).offset <= m
                                        < ss[l].offset + ss[l].len;
                                assert(off + i.len <= ss[l].offset);
                            }
                        }
                    }
                    lemma_decode_local(b, b2, off, end, bit);
                    assert(spec_decode(b2, off, end, bit) == Some(i));
                    lemma_suffix_hyps(b, b2, off, end, bit, i.len as int, rest, ss, 0);
                    lemma_scan_range_stable(b, b2, off + i.len, end, bit);
                    assert(spec_scan_range(b2, off, end, bit) == spec_scan_range(
                        b2,
                        off + i.len,
                        end,
                        bit,
                    ));
                }
            },
        }
    }
}

/// Scan stability over all ranges at index `k0` and after: per range, bytes
/// changed only inside that range's site intervals, and those sites still
/// hold variants.
proof fn lemma_scan_from_stable(b: Seq<u8>, b2: Seq<u8>, rs: Seq<SafeRange>, bit: Bitness, k0: int)
    requires
        ranges_normal(rs, b.len() as int),
        b.len() <= usize::MAX,
        b2.len() == b.len(),
        0 <= k0,
        forall|kk: int, m: int|
            k0 <= kk < rs.len() && rs[kk].start <= m < rs[kk].start + rs[kk].len && !in_sites(
                m,
                spec_scan_range(b, rs[kk].start as int, rs[kk].start + rs[kk].len, bit),
            ) ==> b2[m] == b[m],
        forall|kk: int, l: int|
            k0 <= kk < rs.len() && 0 <= l < spec_scan_range(
                b,
                rs[kk].start as int,
                rs[kk].start + rs[kk].len,
                bit,
            ).len() ==> holds_variant(
                b2,
                #[trigger] spec_scan_range(b, rs[kk].start as int, rs[kk].start + rs[kk].len, bit)[l],
            ),
    ensures
        sites_same_mod_cur(spec_scan_from(b2, rs, bit, k0), spec_scan_from(b, rs, bit, k0)),
        forall|kk: int|
            k0 <= kk < rs.len() ==> (spec_decode(
                b2,
                rs[kk].start as int,
                rs[kk].start + rs[kk].len,
                bit,
            ) is Some <==> spec_decode(b, rs[kk].start as int, rs[kk].start + rs[kk].len, bit)
                is Some),
    decreases rs.len() - k0,
{
    if k0 < rs.len() {
        let wst = rs[k0].start as int;
        let wend = rs[k0].start + rs[k0].len;
        lemma_scan_range_stable(b, b2, wst, wend, bit);
        lemma_scan_from_stable(b, b2, rs, bit, k0 + 1);
        let head = spec_scan_range(b, wst, wend, bit);
        let head2 = spec_scan_range(b2, wst, wend, bit);
        let rest = spec_scan_from(b, rs, bit, k0 + 1);
        let rest2 = spec_scan_from(b2, rs, bit, k0 + 1);
        let ss = spec_scan_from(b, rs, bit, k0);
        let ss2 = spec_scan_from(b2, rs, bit, k0);
        assert(ss == head + rest);
        assert(ss2 == head2 + rest2);
        assert forall|k: int| 0 <= k < ss2.len() implies (#[trigger] ss2[k]).offset == ss[k].offset
            && ss2[k].len == ss[k].len && ss2[k].variants == ss[k].variants by {
            if k < head.len() {
                assert(ss2[k] == head2[k]);
                assert(ss[k] == head[k]);
            } else {
                assert(ss2[k] == rest2[k - head.len()]);
                assert(ss[k] == rest[k - head.len()]);
            }
        }
    }
}

/// Every site of one range's scan appears in the scan of the ranges from
/// `k0` on.
proof fn lemma_scan_from_has_range_site(
    b: Seq<u8>,
    rs: Seq<SafeRange>,
    bit: Bitness,
    k0: int,
    kk: int,
    jj: int,
)
    requires
        0 <= k0 <= kk < rs.len(),
        0 <= jj < spec_scan_range(b, rs[kk].start as int, rs[kk].start + rs[kk].len, bit).len(),
    ensures
        exists|j: int|
            0 <= j < spec_scan_from(b, rs, bit, k0).len() && #[trigger] spec_scan_from(
                b,
                rs,
                bit,
                k0,
            )[j] == spec_scan_range(b, rs[kk].start as int, rs[kk].start + rs[kk].len, bit)[jj],
    decreases kk - k0,
{
    let head = spec_scan_range(b, rs[k0].start as int, rs[k0].start + rs[k0].len, bit);
    let rest = spec_scan_from(b, rs, bit, k0 + 1);
    if k0 == kk {
        assert(spec_scan_from(b, rs, bit, k0)[jj] == spec_scan_range(
            b,
            rs[kk].start as int,
            rs[kk].start + rs[kk].len,
            bit,
        )[jj]);
    } else {
        lemma_scan_from_has_range_site(b, rs, bit, k0 + 1, kk, jj);
        let j = choose|j: int|
            0 <= j < rest.len() && #[trigger] rest[j] == spec_scan_range(
                b,
                rs[kk].start as int,
                rs[kk].start + rs[kk].len,
                bit,
            )[jj];
        assert(spec_scan_from(b, rs, bit, k0)[head.len() + j] == rest[j]);
    }
}

/// Every site of a scan comes from some range's scan.
proof fn lemma_scan_from_site_origin(b: Seq<u8>, rs: Seq<SafeRange>, bit: Bitness, k0: int, j: int)
    requires
        0 <= k0,
        0 <= j < spec_scan_from(b, rs, bit, k0).len(),
    ensures
        exists|kk: int, jj: int|
            k0 <= kk < rs.len() && 0 <= jj < spec_scan_range(
                b,
                rs[kk].start as int,
                rs[kk].start + rs[kk].len,
                bit,
            ).len() && #[trigger] spec_scan_range(
                b,
                rs[kk].start as int,
                rs[kk].start + rs[kk].len,
                bit,
            )[jj] == spec_scan_from(b, rs, bit, k0)[j],
    decreases rs.len() - k0,
{
    let head = spec_scan_range(b, rs[k0].start as int, rs[k0].start + rs[k0].len, bit);
    let rest = spec_scan_from(b, rs, bit, k0 + 1);
    if j < head.len() {
        assert(spec_scan_range(b, rs[k0].start as int, rs[k0].start + rs[k0].len, bit)[j]
            == spec_scan_from(b, rs, bit, k0)[j]);
    } else {
        lemma_scan_from_site_origin(b, rs, bit, k0 + 1, j - head.len());
        assert(spec_scan_from(b, rs, bit, k0)[j] == rest[j - head.len()]);
    }
}

/// No site matching no variant means no corrupt site.
proof fn lemma_no_corrupt(b: Seq<u8>, ss: Seq<SpecSite>, k: int)
    requires
        0 <= k,
        forall|l: int| k <= l < ss.len() ==> variant_match(b, #[trigger] ss[l]) != -1,
    ensures
        first_corrupt_from(b, ss, k) is None,
    decreases ss.len() - k,
{
    if k < ss.len() {
        lemma_no_corrupt(b, ss, k + 1);
    }
}

/// Decodability of every range start carries a scan's success across the
/// rewrite.
proof fn lemma_undecodable_stable(
    b: Seq<u8>,
    b2: Seq<u8>,
    rs: Seq<SafeRange>,
    bit: Bitness,
    k0: int,
)
    requires
        0 <= k0,
        first_undecodable_from(b, rs, bit, k0) is None,
        forall|kk: int|
            k0 <= kk < rs.len() ==> (spec_decode(
                b2,
                rs[kk].start as int,
                rs[kk].start + rs[kk].len,
                bit,
            ) is Some <==> spec_decode(b, rs[kk].start as int, rs[kk].start + rs[kk].len, bit)
                is Some),
    ensures
        first_undecodable_from(b2, rs, bit, k0) is None,
    decreases rs.len() - k0,
{
    if k0 < rs.len() {
        lemma_undecodable_stable(b, b2, rs, bit, k0 + 1);
    }
}

/// After embedding, bytes inside a range but outside that range's own sites
/// are unchanged.
#[verifier::rlimit(100)]
#[verifier::spinoff_prover]
proof fn lemma_embed_outside_ranges(b: Seq<u8>, rs: Seq<SafeRange>, bit: Bitness, bits: Seq<bool>)
    requires
        ranges_normal(rs, b.len() as int),
        b.len() <= usize::MAX,
    ensures
        forall|kk: int, m: int|
            0 <= kk < rs.len() && rs[kk].start <= m < rs[kk].start + rs[kk].len && !in_sites(
                m,
                spec_scan_range(b, rs[kk].start as int, rs[kk].start + rs[kk].len, bit),
            ) ==> spec_embed(b, spec_scan(b, rs, bit), bits)[m] == b[m],
{
    let sites = spec_scan(b, rs, bit);
    let b2 = spec_embed(b, sites, bits);
    lemma_scan_wf(b, rs, bit);
    lemma_wf_implies_layout(b, sites);
    lemma_embed_shape(b, sites, bits, 0);
    assert forall|kk: int, m: int|
        0 <= kk < rs.len() && rs[kk].start <= m < rs[kk].start + rs[kk].len && !in_sites(
            m,
            spec_scan_range(b, rs[kk].start as int, rs[kk].start + rs[kk].len, bit),
        ) implies b2[m] == b[m] by {
        assert(!in_sites(m, sites)) by {
            if in_sites(m, sites) {
                let j = choose|j: int|
                    0 <= j < sites.len() && (#[trigger] sites[j]).offset <= m < sites[j].offset
                        + sites[j].len;
                lemma_scan_from_site_origin(b, rs, bit, 0, j);
                let (ll, jj): (int, int) = choose|ll: int, jj: int|
                    0 <= ll < rs.len() && 0 <= jj < spec_scan_range(
                        b,
                        rs[ll].start as int,
                        rs[ll].start + rs[ll].len,
                        bit,
                    ).len() && #[trigger] spec_scan_range(
                        b,
                        rs[ll].start as int,
                        rs[ll].start + rs[ll].len,
                        bit,
                    )[jj] == sites[j];
                crate::scan::lemma_scan_range_wf(
                    b,
                    rs[ll].start as int,
                    rs[ll].start + rs[ll].len,
                    bit,
                );
                if ll != kk {
                    assert(rs[ll].start <= sites[j].offset && sites[j].offset + sites[j].len
                        <= rs[ll].start + rs[ll].len);
                    if ll < kk {
                        assert(rs[ll].start + rs[ll].len < rs[kk].start);
                    } else {
                        assert(rs[kk].start + rs[kk].len < rs[ll].start);
                    }
                } else {
                    assert(in_sites(
                        m,
                        spec_scan_range(b, rs[kk].start as int, rs[kk].start + rs[kk].len, bit),
                    ));
                }
            }
        }
        assert(!in_sites_from(m, sites, 0));
    }
}

/// After embedding, every site of every range holds one of its variants.
#[verifier::rlimit(100)]
#[verifier::spinoff_prover]
proof fn lemma_embed_holds_variants(b: Seq<u8>, rs: Seq<SafeRange>, bit: Bitness, bits: Seq<bool>)
    requires
        ranges_normal(rs, b.len() as int),
        b.len() <= usize::MAX,
    ensures
        forall|kk: int, l: int|
            0 <= kk < rs.len() && 0 <= l < spec_scan_range(
                b,
                rs[kk].start as int,
                rs[kk].start + rs[kk].len,
                bit,
            ).len() ==> holds_variant(
                spec_embed(b, spec_scan(b, rs, bit), bits),
                #[trigger] spec_scan_range(b, rs[kk].start as int, rs[kk].start + rs[kk].len, bit)[l],
            ),
{
    let sites = spec_scan(b, rs, bit);
    let b2 = spec_embed(b, sites, bits);
    lemma_scan_wf(b, rs, bit);
    lemma_wf_implies_layout(b, sites);
    lemma_embed_shape(b, sites, bits, 0);
    assert forall|kk: int, l: int|
        0 <= kk < rs.len() && 0 <= l < spec_scan_range(
            b,
            rs[kk].start as int,
            rs[kk].start + rs[kk].len,
            bit,
        ).len() implies holds_variant(
        b2,
        #[trigger] spec_scan_range(b, rs[kk].start as int, rs[kk].start + rs[kk].len, bit)[l],
    ) by {
        lemma_scan_from_has_range_site(b, rs, bit, 0, kk, l);
        let j = choose|j: int|
            0 <= j < sites.len() && #[trigger] sites[j] == spec_scan_range(
                b,
                rs[kk].start as int,
                rs[kk].start + rs[kk].len,
                bit,
            )[l];
        assert(b2.subrange(sites[j].offset, sites[j].offset + sites[j].len) == sites[j].variants[
            chosen_index(sites, bits, j)]);
        assert(0 <= chosen_index(sites, bits, j) < 2) by {
            assert(site_wf(b, sites[j]));
        }
    }
}

/// The round-trip law: for every binary, every set of normalized safe ranges
/// whose scan succeeds, and every payload whose encoded bitstream fits the
/// capacity, embedding and then re-scanning and extracting the rewritten
/// bytes recovers exactly the payload.
#[verifier::rlimit(100)]
#[verifier::spinoff_prover]
pub proof fn lemma_round_trip(b: Seq<u8>, rs: Seq<SafeRange>, bit: Bitness, payload: Seq<u8>)
    requires
        ranges_normal(rs, b.len() as int),
        b.len() <= usize::MAX,
        first_undecodable_from(b, rs, bit, 0) is None,
        encode_bits(payload).len() <= capacity_bits(spec_scan(b, rs, bit)),
        payload.len() < 0x10000000000000000,
    ensures
        ({
            let sites = spec_scan(b, rs, bit);
            let bits = encode_bits(payload);
            let b2 = spec_embed(b, sites, bits);
            let sites2 = spec_scan(b2, rs, bit);
            &&& b2.len() == b.len()
            &&& first_undecodable_from(b2, rs, bit, 0) is None
            &&& first_corrupt_from(b2, sites2, 0) is None
            &&& decode_ok(extracted_bits(b2, sites2))
            &&& decoded_payload(extracted_bits(b2, sites2)) == payload
        }),
{
    let sites = spec_scan(b, rs, bit);
    let bits = encode_bits(payload);
    let b2 = spec_embed(b, sites, bits);
    let sites2 = spec_scan(b2, rs, bit);
    lemma_scan_wf(b, rs, bit);
    lemma_wf_implies_layout(b, sites);
    assert forall|j: int| 0 <= j < sites.len() implies (#[trigger] sites[j]).variants.len()
        == 2 by {
        assert(site_wf(b, sites[j]));
    }
    lemma_capacity_two_variants(sites, 0);
    assert(bits.len() <= sites.len());
    lemma_embed_shape(b, sites, bits, 0);
    assert(b2.len() == b.len());
    lemma_embed_outside_ranges(b, rs, bit, bits);
    lemma_embed_holds_variants(b, rs, bit, bits);
    lemma_scan_from_stable(b, b2, rs, bit, 0);
    lemma_undecodable_stable(b, b2, rs, bit, 0);
    assert(sites_same_mod_cur(sites2, sites));
    // every rewritten site matches exactly the chosen variant
    let ex = extracted_bits(b2, sites2);
    assert forall|k: int| 0 <= k < sites2.len() implies variant_match(b2, #[trigger] sites2[k])
        == chosen_index(sites, bits, k) by {
        assert(site_wf(b, sites[k]));
        assert(b2.subrange(sites[k].offset, sites[k].offset + sites[k].len) == sites[k].variants[
            chosen_index(sites, bits, k)]);
        assert(sites2[k].offset == sites[k].offset && sites2[k].len == sites[k].len
            && sites2[k].variants == sites[k].variants);
    }
    lemma_no_corrupt(b2, sites2, 0);
    // the extracted stream begins with the encoded payload
    let t = ex.skip(bits.len() as int);
    assert(ex =~= bits + t) by {
        assert(ex.len() == sites.len());
        assert forall|k: int| 0 <= k < ex.len() implies ex[k] == (bits + t)[k] by {
            assert(ex[k] == (variant_match(b2, sites2[k]) == 1));
            if k < bits.len() {
                assert(variant_match(b2, sites2[k]) == chosen_index(sites, bits, k));
            }
        }
    }
    vstd::arithmetic::power2::lemma2_to64();
    lemma_codec_roundtrip(payload, t);
    assert(decode_ok(ex));
    assert(decoded_payload(ex) == payload);
}


/// Scanning is idempotent: it is a pure function of the bytes, the ranges and
/// the bitness, so two scans of an unmodified binary with the same safe
/// ranges yield identical ordered site lists.
pub proof fn lemma_scan_idempotent(
    b: Seq<u8>,
    rs: Seq<SafeRange>,
    bit: Bitness,
    s1: Seq<SpecSite>,
    s2: Seq<SpecSite>,
)
    requires
        s1 == spec_scan(b, rs, bit),
        s2 == spec_scan(b, rs, bit),
    ensures
        s1 == s2,
{
}

/// The floor of the base-two logarithm is never negative.
proof fn lemma_floor_log2_nonneg(n: int)
    ensures
        floor_log2(n) >= 0,
    decreases n,
{
    if n >= 2 {
        lemma_floor_log2_nonneg(n / 2);
    }
}

/// A site list's capacity is never negative.
proof fn lemma_capacity_nonneg(ss: Seq<SpecSite>, k: int)
    ensures
        capacity_from(ss, k) >= 0,
    decreases ss.len() - k,
{
    if 0 <= k < ss.len() {
        lemma_floor_log2_nonneg(ss[k].variants.len() as int);
        lemma_capacity_nonneg(ss, k + 1);
    }
}

/// The capacity of concatenated site lists, from an index within the first.
proof fn lemma_capacity_concat(s1: Seq<SpecSite>, s2: Seq<SpecSite>, k: int)
    requires
        0 <= k <= s1.len(),
    ensures
        capacity_from(s1 + s2, k) == capacity_from(s1, k) + capacity_from(s2, 0),
    decreases s1.len() - k,
{
    if k < s1.len() {
        assert((s1 + s2)[k] == s1[k]);
        lemma_capacity_concat(s1, s2, k + 1);
    } else {
        lemma_capacity_offset(s1, s2, 0);
    }
}

/// The capacity of the second part of a concatenation.
proof fn lemma_capacity_offset(s1: Seq<SpecSite>, s2: Seq<SpecSite>, k2: int)
    requires
        0 <= k2 <= s2.len(),
    ensures
        capacity_from(s1 + s2, s1.len() + k2) == capacity_from(s2, k2),
    decreases s2.len() - k2,
{
    if k2 < s2.len() {
        assert((s1 + s2)[s1.len() + k2] == s2[k2]);
        lemma_capacity_offset(s1, s2, k2 + 1);
    }
}

/// Appending a range appends its sites to the scan.
proof fn lemma_scan_push(b: Seq<u8>, rs: Seq<SafeRange>, r: SafeRange, bit: Bitness, k: int)
    requires
        0 <= k <= rs.len(),
    ensures
        spec_scan_from(b, rs.push(r), bit, k) == spec_scan_from(b, rs, bit, k) + spec_scan_range(
            b,
            r.start as int,
            r.start + r.len,
            bit,
        ),
    decreases rs.len() - k,
{
    let extra = spec_scan_range(b, r.start as int, r.start + r.len, bit);
    if k == rs.len() {
        assert(rs.push(r)[k] == r);
        assert(spec_scan_from(b, rs.push(r), bit, k + 1) == Seq::<SpecSite>::empty());
        assert(spec_scan_from(b, rs.push(r), bit, k) =~= spec_scan_from(b, rs, bit, k) + extra);
    } else {
        assert(rs.push(r)[k] == rs[k]);
        lemma_scan_push(b, rs, r, bit, k + 1);
        assert(spec_scan_from(b, rs.push(r), bit, k) =~= spec_scan_from(b, rs, bit, k) + extra);
    }
}

/// Capacity is monotone in the safe ranges: adding a range never decreases
/// the capacity.
pub proof fn lemma_capacity_monotonic(b: Seq<u8>, rs: Seq<SafeRange>, r: SafeRange, bit: Bitness)
    ensures
        capacity_bits(spec_scan(b, rs.push(r), bit)) >= capacity_bits(spec_scan(b, rs, bit)),
{
    let extra = spec_scan_range(b, r.start as int, r.start + r.len, bit);
    lemma_scan_push(b, rs, r, bit, 0);
    lemma_capacity_concat(spec_scan(b, rs, bit), extra, 0);
    lemma_capacity_nonneg(extra, 0);
}

/// Extraction reads only the bytes inside the site intervals: two buffers
/// that agree on every site's bytes extract the same bitstream and detect
/// the same corruption, whatever the bytes between the sites do.
pub proof fn lemma_extract_reads_only_sites(
    b1: Seq<u8>,
    b2: Seq<u8>,
    ss: Seq<SpecSite>,
    k: int,
)
    requires
        0 <= k,
        forall|l: int|
            0 <= l < ss.len() ==> 0 <= (#[trigger] ss[l]).offset && ss[l].offset + ss[l].len
                <= b1.len() && ss[l].offset + ss[l].len <= b2.len() && b2.subrange(
                ss[l].offset,
                ss[l].offset + ss[l].len,
            ) == b1.subrange(ss[l].offset, ss[l].offset + ss[l].len),
    ensures
        first_corrupt_from(b2, ss, k) == first_corrupt_from(b1, ss, k),
        extracted_bits(b2, ss) == extracted_bits(b1, ss),
    decreases ss.len() - k,
{
    if k < ss.len() {
        assert(variant_match(b2, ss[k]) == variant_match(b1, ss[k]));
        lemma_extract_reads_only_sites(b1, b2, ss, k + 1);
    }
    assert(extracted_bits(b2, ss) =~= extracted_bits(b1, ss)) by {
        assert forall|l: int| 0 <= l < ss.len() implies extracted_bits(b2, ss)[l] == extracted_bits(
            b1,
            ss,
        )[l] by {
            assert(variant_match(b2, ss[l]) == variant_match(b1, ss[l]));
        }
    }
}

} // verus!
