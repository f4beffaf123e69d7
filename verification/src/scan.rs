//! Site discovery.
//!
//! The scanner walks each normalized safe range, restarts the disassembler at
//! the range start, and collects every instruction that admits at least two
//! equivalent encodings as an encoding site.  Sites are emitted in strictly
//! increasing offset order: this fixed order is the shared contract between
//! embedding and extraction, since no side channel stores an index in the
//! binary itself.
//!
//! Decoding failure inside a range ends that range's sites early (fail soft);
//! a range whose very first byte does not decode fails the whole scan.

use vstd::prelude::*;

use crate::errors::StegError;
use crate::insn::{decode_one, spec_decode, Bitness, Instruction, InsnKind};
use crate::ranges::{ranges_normal, SafeRange};
use crate::table::{
    lemma_decode_gives_variant,
    lemma_encodings_differ,
    rr_encoding,
    spec_variants,
    variants_for,
};

verus! {

/// A read-only view of a text section: its bytes, where it sits in the file,
/// and how to interpret it.
pub struct BinaryView {
    /// The section's bytes.
    pub bytes: Vec<u8>,
    /// File offset of the first byte (not used by the engine's logic).
    pub base_offset: u64,
    /// The declared bitness.
    pub bitness: Bitness,
}

/// The mathematical model of an encoding site.
pub ghost struct SpecSite {
    /// Offset of the instruction, relative to the section start.
    pub offset: int,
    /// Length of the instruction in bytes.
    pub len: int,
    /// The ordered variant encodings.
    pub variants: Seq<Seq<u8>>,
    /// Index of the variant currently present in the bytes.
    pub cur: int,
}

/// An instruction location that admits at least two byte-identical-length,
/// semantics-preserving encodings.
pub struct EncodingSite {
    /// Offset of the instruction, relative to the section start.
    pub offset: usize,
    /// Length of the instruction in bytes.
    pub length: usize,
    /// The ordered variant encodings; every variant has exactly `length`
    /// bytes and decodes to the same instruction.
    pub variants: Vec<Vec<u8>>,
    /// Index of the variant currently present in the bytes.
    pub current_variant_index: usize,
}

impl View for EncodingSite {
    type V = SpecSite;

    open spec fn view(&self) -> SpecSite {
        SpecSite {
            offset: self.offset as int,
            len: self.length as int,
            variants: self.variants@.map_values(|v: Vec<u8>| v@),
            cur: self.current_variant_index as int,
        }
    }
}

/// The model of a site list.
pub open spec fn sites_view(ss: Seq<EncodingSite>) -> Seq<SpecSite> {
    ss.map_values(|s: EncodingSite| s@)
}

/// Does this instruction admit more than one encoding?
pub open spec fn is_site(i: Instruction) -> bool {
    i.kind is AluRR
}

/// The variant currently present at instruction `i` in buffer `b`.
pub open spec fn site_cur(b: Seq<u8>, i: Instruction) -> int {
    if b.subrange(i.offset as int, i.offset + i.len) == rr_encoding(i, false) {
        0
    } else {
        1
    }
}

/// The site an instruction contributes.
pub open spec fn spec_site_of(b: Seq<u8>, i: Instruction) -> SpecSite {
    SpecSite {
        offset: i.offset as int,
        len: i.len as int,
        variants: spec_variants(i),
        cur: site_cur(b, i),
    }
}

/// The ordered sites of one range `[off, end)`: decode from `off`, collect
/// sites, stop at the range end or at the first undecodable byte.
pub open spec fn spec_scan_range(b: Seq<u8>, off: int, end: int, bit: Bitness) -> Seq<SpecSite>
    decreases end - off,
{
    if off < end {
        match spec_decode(b, off, end, bit) {
            Some(i) => if off + 1 <= off + i.len && off + i.len <= end {
                let rest = spec_scan_range(b, off + i.len, end, bit);
                if is_site(i) {
                    seq![spec_site_of(b, i)] + rest
                } else {
                    rest
                }
            } else {
                Seq::<SpecSite>::empty()
            },
            None => Seq::<SpecSite>::empty(),
        }
    } else {
        Seq::<SpecSite>::empty()
    }
}

/// The ordered sites of the ranges at index `k` and after.
pub open spec fn spec_scan_from(b: Seq<u8>, rs: Seq<SafeRange>, bit: Bitness, k: int) -> Seq<
    SpecSite,
>
    decreases rs.len() - k,
{
    if 0 <= k < rs.len() {
        spec_scan_range(b, rs[k].start as int, rs[k].start + rs[k].len, bit) + spec_scan_from(
            b,
            rs,
            bit,
            k + 1,
        )
    } else {
        Seq::<SpecSite>::empty()
    }
}

/// The ordered sites of all ranges: the model of a whole scan.
pub open spec fn spec_scan(b: Seq<u8>, rs: Seq<SafeRange>, bit: Bitness) -> Seq<SpecSite> {
    spec_scan_from(b, rs, bit, 0)
}

/// A range is undecodable when its very first byte starts no instruction.
pub open spec fn range_undecodable(b: Seq<u8>, r: SafeRange, bit: Bitness) -> bool {
    spec_decode(b, r.start as int, r.start + r.len, bit) is None
}

/// The first undecodable range at or after index `k`, if any.
pub open spec fn first_undecodable_from(
    b: Seq<u8>,
    rs: Seq<SafeRange>,
    bit: Bitness,
    k: int,
) -> Option<SafeRange>
    decreases rs.len() - k,
{
    if k < 0 || k >= rs.len() {
        None
    } else if range_undecodable(b, rs[k], bit) {
        Some(rs[k])
    } else {
        first_undecodable_from(b, rs, bit, k + 1)
    }
}

/// Well-formedness of one site against the buffer it was scanned from.
pub open spec fn site_wf(b: Seq<u8>, s: SpecSite) -> bool {
    &&& 0 <= s.offset
    &&& 1 <= s.len
    &&& s.offset + s.len <= b.len()
    &&& s.offset + s.len <= usize::MAX
    &&& s.variants.len() == 2
    &&& s.variants[0].len() == s.len
    &&& s.variants[1].len() == s.len
    &&& s.variants[0] != s.variants[1]
    &&& (s.cur == 0 || s.cur == 1)
    &&& b.subrange(s.offset, s.offset + s.len) == s.variants[s.cur]
}

/// Well-formedness of a site list: every site is well formed and consecutive
/// sites do not overlap and come in ascending offset order.
pub open spec fn sites_wf(b: Seq<u8>, ss: Seq<SpecSite>) -> bool {
    &&& forall|k: int| 0 <= k < ss.len() ==> site_wf(b, #[trigger] ss[k])
    &&& forall|k: int| 0 <= k < ss.len() - 1 ==> (#[trigger] ss[k]).offset + ss[k].len
        <= ss[k + 1].offset
}

/// Every site of one range's scan is well formed and lies within the range.
#[verifier::rlimit(100)]
#[verifier::spinoff_prover]
pub proof fn lemma_scan_range_wf(b: Seq<u8>, off: int, end: int, bit: Bitness)
    requires
        0 <= off,
        end <= b.len(),
        end <= usize::MAX,
    ensures
        sites_wf(b, spec_scan_range(b, off, end, bit)),
        forall|k: int|
            0 <= k < spec_scan_range(b, off, end, bit).len() ==> off <= (
            #[trigger] spec_scan_range(b, off, end, bit)[k]).offset
                && spec_scan_range(b, off, end, bit)[k].offset + spec_scan_range(
                b,
                off,
                end,
                bit,
            )[k].len <= end,
    decreases end - off,
{
    let ss = spec_scan_range(b, off, end, bit);
    if off < end {
        match spec_decode(b, off, end, bit) {
            Some(i) => {
                if off + 1 <= off + i.len && off + i.len <= end {
                    lemma_scan_range_wf(b, off + i.len, end, bit);
                    let rest = spec_scan_range(b, off + i.len, end, bit);
                    if is_site(i) {
                        lemma_decode_gives_variant(b, off, end, bit);
                        lemma_encodings_differ(i);
                        let s0 = spec_site_of(b, i);
                        assert(site_wf(b, s0)) by {
                            if b.subrange(off, off + i.len) != rr_encoding(i, false) {
                                assert(b.subrange(off, off + i.len) == rr_encoding(i, true));
                            }
                        }
                        assert(ss == seq![s0] + rest);
                        assert forall|k: int| 0 <= k < ss.len() implies site_wf(b, #[trigger] ss[k])
                            && off <= ss[k].offset && ss[k].offset + ss[k].len <= end by {
                            if k > 0 {
                                assert(ss[k] == rest[k - 1]);
                            }
                        }
                        assert forall|k: int| 0 <= k < ss.len() - 1 implies (
                        #[trigger] ss[k]).offset + ss[k].len <= ss[k + 1].offset by {
                            if k > 0 {
                                assert(ss[k] == rest[k - 1]);
                                assert(ss[k + 1] == rest[k]);
                            } else {
                                assert(ss[1] == rest[0]);
                            }
                        }
                    } else {
                        assert(ss == rest);
                    }
                }
            },
            None => {},
        }
    }
}

/// Every site of a whole scan is well formed; the scan of later ranges stays
/// at or after the start of the first of them.
proof fn lemma_scan_from_wf(b: Seq<u8>, rs: Seq<SafeRange>, bit: Bitness, k0: int)
    requires
        ranges_normal(rs, b.len() as int),
        b.len() <= usize::MAX,
        0 <= k0,
    ensures
        sites_wf(b, spec_scan_from(b, rs, bit, k0)),
        forall|k: int|
            0 <= k < spec_scan_from(b, rs, bit, k0).len() && k0 < rs.len() ==> rs[k0].start <= (
            #[trigger] spec_scan_from(b, rs, bit, k0)[k]).offset,
    decreases rs.len() - k0,
{
    let ss = spec_scan_from(b, rs, bit, k0);
    if k0 < rs.len() {
        let rstart = rs[k0].start as int;
        let rend = rs[k0].start + rs[k0].len;
        lemma_scan_range_wf(b, rstart, rend, bit);
        lemma_scan_from_wf(b, rs, bit, k0 + 1);
        let head = spec_scan_range(b, rstart, rend, bit);
        let rest = spec_scan_from(b, rs, bit, k0 + 1);
        assert(ss == head + rest);
        assert forall|k: int|
            0 <= k < rest.len() implies rend <= (#[trigger] rest[k]).offset by {
            if k0 + 1 < rs.len() {
                assert(rs[k0].start + rs[k0].len < rs[k0 + 1].start);
                assert(rs[k0 + 1].start <= rest[k].offset);
            } else {
                assert(rest.len() == 0);
            }
        }
        assert forall|k: int| 0 <= k < ss.len() implies site_wf(b, #[trigger] ss[k]) && rstart
            <= ss[k].offset by {
            if k < head.len() {
                assert(ss[k] == head[k]);
            } else {
                assert(ss[k] == rest[k - head.len()]);
            }
        }
        assert forall|k: int| 0 <= k < ss.len() - 1 implies (#[trigger] ss[k]).offset + ss[k].len
            <= ss[k + 1].offset by {
            if k + 1 < head.len() {
                assert(ss[k] == head[k]);
                assert(ss[k + 1] == head[k + 1]);
            } else if k >= head.len() {
                assert(ss[k] == rest[k - head.len()]);
                assert(ss[k + 1] == rest[k - head.len() + 1]);
            } else {
                assert(ss[k] == head[k]);
                assert(ss[k + 1] == rest[0]);
                assert(head[k].offset + head[k].len <= rend);
            }
        }
    }
}

/// Every site of a scan over normal ranges is well formed, and the list is
/// ascending and non-overlapping.
pub proof fn lemma_scan_wf(b: Seq<u8>, rs: Seq<SafeRange>, bit: Bitness)
    requires
        ranges_normal(rs, b.len() as int),
        b.len() <= usize::MAX,
    ensures
        sites_wf(b, spec_scan(b, rs, bit)),
{
    lemma_scan_from_wf(b, rs, bit, 0);
}

/// Do the bytes at `[off, off + v.len())` equal `v` exactly?
pub fn bytes_match(bytes: &Vec<u8>, off: usize, v: &Vec<u8>) -> (r: bool)
    requires
        off + v@.len() <= bytes@.len(),
    ensures
        r == (bytes@.subrange(off as int, off + v@.len()) == v@),
{
    let n = v.len();
    let blen = bytes.len();
    let mut k: usize = 0;
    while k < n
        invariant
            n == v@.len(),
            blen == bytes@.len(),
            off + n <= blen,
            0 <= k <= n,
            forall|j: int| 0 <= j < k ==> bytes@[off + j] == v@[j],
        decreases n - k,
    {
        if bytes[off + k] != v[k] {
            proof {
                assert(bytes@.subrange(off as int, off + v@.len())[k as int] != v@[k as int]);
            }
            return false;
        }
        k = k + 1;
    }
    proof {
        assert(bytes@.subrange(off as int, off + v@.len()) =~= v@);
    }
    true
}

/// Scan the view's bytes restricted to the given normalized safe ranges and
/// return the ordered encoding sites.  Fails only when some range's first
/// byte starts no decodable instruction; a later undecodable byte merely ends
/// that range's sites.
#[verifier::rlimit(100)]
pub fn scan(view: &BinaryView, ranges: &Vec<SafeRange>) -> (out: Result<
    Vec<EncodingSite>,
    StegError,
>)
    requires
        ranges_normal(ranges@, view.bytes@.len() as int),
    ensures
        match out {
            Ok(sites) => {
                &&& first_undecodable_from(view.bytes@, ranges@, view.bitness, 0) is None
                &&& sites_view(sites@) == spec_scan(view.bytes@, ranges@, view.bitness)
            },
            Err(e) => {
                &&& first_undecodable_from(view.bytes@, ranges@, view.bitness, 0) matches Some(r)
                    && e == (StegError::Decode { offset: r.start })
            },
        },
{
    let ghost b = view.bytes@;
    let ghost rs = ranges@;
    let blen = view.bytes.len();
    let bit = view.bitness;
    let mut sites: Vec<EncodingSite> = Vec::new();
    let nr = ranges.len();
    let mut ri: usize = 0;
    while ri < nr
        invariant
            nr == rs.len(),
            b == view.bytes@,
            rs == ranges@,
            bit == view.bitness,
            blen == b.len(),
            ranges_normal(rs, b.len() as int),
            0 <= ri <= nr,
            first_undecodable_from(b, rs, bit, 0) == first_undecodable_from(b, rs, bit, ri as int),
            spec_scan(b, rs, bit) == sites_view(sites@) + spec_scan_from(b, rs, bit, ri as int),
        decreases nr - ri,
    {
        let r = ranges[ri];
        proof {
            assert(r.start + r.len <= blen);
        }
        let rend = r.start + r.len;
        let mut pos: usize = r.start;
        let ghost snap = sites@;
        let mut broke = false;
        while pos < rend && !broke
            invariant
                b == view.bytes@,
                bit == view.bitness,
                rs == ranges@,
                nr == rs.len(),
                0 <= ri < nr,
                r == rs[ri as int],
                rend == r.start + r.len,
                first_undecodable_from(b, rs, bit, 0) == first_undecodable_from(
                    b,
                    rs,
                    bit,
                    ri as int,
                ),
                rend <= b.len(),
                rend <= usize::MAX,
                r.start <= pos <= rend,
                sites_view(snap) + spec_scan_range(b, r.start as int, rend as int, bit)
                    == sites_view(sites@) + spec_scan_range(b, pos as int, rend as int, bit),
                !broke ==> (pos == r.start || spec_decode(b, r.start as int, rend as int, bit)
                    is Some),
                broke ==> spec_scan_range(b, pos as int, rend as int, bit)
                    == Seq::<SpecSite>::empty(),
                broke ==> spec_decode(b, r.start as int, rend as int, bit) is Some,
            decreases rend - pos + (if broke {
                0int
            } else {
                1
            }),
        {
            match decode_one(&view.bytes, pos, rend, bit) {
                None => {
                    if pos == r.start {
                        return Err(StegError::Decode { offset: r.start });
                    }
                    broke = true;
                },
                Some(i) => {
                    proof {
                        crate::insn::lemma_decode_len(b, pos as int, rend as int, bit);
                    }
                    if matches!(i.kind, InsnKind::AluRR { .. }) {
                        proof {
                            lemma_decode_gives_variant(b, pos as int, rend as int, bit);
                            lemma_encodings_differ(i);
                        }
                        let variants = variants_for(&i);
                        let m0 = bytes_match(&view.bytes, pos, &variants[0]);
                        let cur: usize = if m0 {
                            0
                        } else {
                            1
                        };
                        let site = EncodingSite {
                            offset: i.offset,
                            length: i.len,
                            variants,
                            current_variant_index: cur,
                        };
                        let ghost before = sites@;
                        sites.push(site);
                        proof {
                            assert(site@.variants =~= spec_variants(i));
                            assert(site@ == spec_site_of(b, i));
                            assert(sites_view(sites@) =~= sites_view(before) + seq![site@]);
                            assert(spec_scan_range(b, pos as int, rend as int, bit) == seq![
                                spec_site_of(b, i),
                            ] + spec_scan_range(b, pos + i.len, rend as int, bit));
                            assert(sites_view(snap) + spec_scan_range(
                                b,
                                r.start as int,
                                rend as int,
                                bit,
                            ) =~= sites_view(sites@) + spec_scan_range(
                                b,
                                pos + i.len,
                                rend as int,
                                bit,
                            ));
                        }
                    }
                    pos = pos + i.len;
                },
            }
        }
        proof {
            assert(spec_scan_range(b, pos as int, rend as int, bit) == Seq::<SpecSite>::empty());
            assert(sites_view(snap) + spec_scan_range(b, r.start as int, rend as int, bit)
                =~= sites_view(sites@));
            assert(spec_scan_from(b, rs, bit, ri as int) == spec_scan_range(
                b,
                r.start as int,
                rend as int,
                bit,
            ) + spec_scan_from(b, rs, bit, ri + 1));
            assert(spec_scan(b, rs, bit) =~= sites_view(sites@) + spec_scan_from(
                b,
                rs,
                bit,
                ri + 1,
            ));
        }
        ri = ri + 1;
    }
    proof {
        assert(spec_scan(b, rs, bit) =~= sites_view(sites@));
    }
    Ok(sites)
}

} // verus!
