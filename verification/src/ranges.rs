//! Safe ranges and their normalization.
//!
//! A safe range is a caller-attested interval of the text section known to
//! disassemble cleanly.  Before scanning, the engine normalizes the supplied
//! ranges: zero-length ranges and ranges lying entirely past the section end
//! are rejected, ranges reaching past the end are clipped, and the rest are
//! sorted and merged into disjoint, ascending, non-adjacent intervals.

use vstd::prelude::*;

use crate::errors::StegError;

verus! {

/// An interval `[start, start + len)` of offsets into the text section.
#[derive(Clone, Copy, PartialEq, Eq, Structural, Debug)]
pub struct SafeRange {
    /// Offset of the first byte of the interval, relative to the section start.
    pub start: usize,
    /// Number of bytes in the interval.
    pub len: usize,
}

/// Does range `r` cover offset `i`?
pub open spec fn range_covers(r: SafeRange, i: int) -> bool {
    r.start <= i < r.start + r.len
}

/// Does some range of `rs` cover offset `i`?
pub open spec fn covered(rs: Seq<SafeRange>, i: int) -> bool {
    exists|k: int| 0 <= k < rs.len() && #[trigger] range_covers(rs[k], i)
}

/// The normal form: every range is non-empty and within the section, and the
/// ranges are ascending with a gap between consecutive ones (overlapping or
/// adjacent ranges have been merged).
pub open spec fn ranges_normal(rs: Seq<SafeRange>, section_len: int) -> bool {
    &&& forall|k: int| 0 <= k < rs.len() ==> (#[trigger] rs[k]).len > 0
    &&& forall|k: int| 0 <= k < rs.len() ==> (#[trigger] rs[k]).start + rs[k].len <= section_len
    &&& forall|k: int, l: int|
        0 <= k < l < rs.len() ==> (#[trigger] rs[k]).start + rs[k].len < (#[trigger] rs[l]).start
}

/// A supplied range is invalid when it is empty or lies entirely past the
/// section end (so that clipping would leave nothing).
pub open spec fn range_invalid(r: SafeRange, section_len: int) -> bool {
    r.len == 0 || r.start >= section_len
}

/// Is some supplied range invalid?
pub open spec fn has_invalid_range(rs: Seq<SafeRange>, section_len: int) -> bool {
    exists|k: int| 0 <= k < rs.len() && #[trigger] range_invalid(rs[k], section_len)
}

/// The first invalid range of `rs` at or after index `k`, if any.
pub open spec fn first_invalid_from(rs: Seq<SafeRange>, section_len: int, k: int) -> Option<SafeRange>
    decreases rs.len() - k,
{
    if k < 0 || k >= rs.len() {
        None
    } else if range_invalid(rs[k], section_len) {
        Some(rs[k])
    } else {
        first_invalid_from(rs, section_len, k + 1)
    }
}

/// What normalization promises of offset coverage: with no ranges supplied the
/// whole section is covered; otherwise exactly the supplied offsets that fall
/// inside the section are covered.
pub open spec fn normalized_covers(input: Seq<SafeRange>, section_len: int, i: int) -> bool {
    if input.len() == 0 {
        0 <= i < section_len
    } else {
        covered(input, i) && i < section_len
    }
}

proof fn lemma_covered_swap_one_way(s1: Seq<SafeRange>, s2: Seq<SafeRange>, a: int, b: int)
    requires
        s1.len() == s2.len(),
        0 <= a < s1.len(),
        0 <= b < s1.len(),
        s2[a] == s1[b],
        s2[b] == s1[a],
        forall|k: int| 0 <= k < s1.len() && k != a && k != b ==> s2[k] == s1[k],
    ensures
        forall|i: int| covered(s1, i) ==> covered(s2, i),
{
    assert forall|i: int| covered(s1, i) implies covered(s2, i) by {
        let k = choose|k: int| 0 <= k < s1.len() && #[trigger] range_covers(s1[k], i);
        if k == a {
            assert(range_covers(s2[b], i));
        } else if k == b {
            assert(range_covers(s2[a], i));
        } else {
            assert(range_covers(s2[k], i));
        }
    }
}

/// Swapping two elements leaves the covered offsets unchanged.
proof fn lemma_covered_swap(s1: Seq<SafeRange>, s2: Seq<SafeRange>, a: int, b: int)
    requires
        s1.len() == s2.len(),
        0 <= a < s1.len(),
        0 <= b < s1.len(),
        s2[a] == s1[b],
        s2[b] == s1[a],
        forall|k: int| 0 <= k < s1.len() && k != a && k != b ==> s2[k] == s1[k],
    ensures
        forall|i: int| covered(s1, i) <==> covered(s2, i),
{
    lemma_covered_swap_one_way(s1, s2, a, b);
    lemma_covered_swap_one_way(s2, s1, a, b);
}

/// Appending a range extends the covered offsets by exactly that range.
proof fn lemma_covered_push(s: Seq<SafeRange>, r: SafeRange)
    ensures
        forall|i: int| covered(s.push(r), i) <==> covered(s, i) || range_covers(r, i),
{
    assert forall|i: int| covered(s.push(r), i) implies covered(s, i) || range_covers(r, i) by {
        let k = choose|k: int| 0 <= k < s.push(r).len() && #[trigger] range_covers(s.push(r)[k], i);
        if k < s.len() {
            assert(range_covers(s[k], i));
        }
    }
    assert forall|i: int| covered(s, i) || range_covers(r, i) implies covered(s.push(r), i) by {
        if covered(s, i) {
            let k = choose|k: int| 0 <= k < s.len() && #[trigger] range_covers(s[k], i);
            assert(range_covers(s.push(r)[k], i));
        } else {
            assert(range_covers(s.push(r)[s.len() as int], i));
        }
    }
}

/// Replacing the last range changes the covered offsets from the old last
/// range's to the new one's.
proof fn lemma_covered_update_last(s: Seq<SafeRange>, r: SafeRange)
    requires
        s.len() > 0,
    ensures
        forall|i: int|
            covered(s.update(s.len() - 1, r), i) <==> covered(s.take(s.len() - 1), i) || range_covers(
                r,
                i,
            ),
{
    let l = s.len() - 1;
    let s2 = s.update(l, r);
    assert forall|i: int| covered(s2, i) implies covered(s.take(l), i) || range_covers(r, i) by {
        let k = choose|k: int| 0 <= k < s2.len() && #[trigger] range_covers(s2[k], i);
        if k < l {
            assert(range_covers(s.take(l)[k], i));
        }
    }
    assert forall|i: int| covered(s.take(l), i) || range_covers(r, i) implies covered(s2, i) by {
        if covered(s.take(l), i) {
            let k = choose|k: int| 0 <= k < s.take(l).len() && #[trigger] range_covers(s.take(l)[k], i);
            assert(range_covers(s2[k], i));
        } else {
            assert(range_covers(s2[l], i));
        }
    }
}

/// Validate and clip one supplied range against the section bounds.
fn clip_range(r: SafeRange, section_len: usize) -> (out: Result<SafeRange, StegError>)
    ensures
        match out {
            Ok(c) => {
                &&& !range_invalid(r, section_len as int)
                &&& c.start == r.start
                &&& c.len > 0
                &&& c.start + c.len <= section_len
                &&& forall|i: int| range_covers(c, i) <==> range_covers(r, i) && i < section_len
            },
            Err(e) => range_invalid(r, section_len as int) && e == (StegError::InvalidSafeRange {
                start: r.start,
                len: r.len,
            }),
        },
{
    if r.len == 0 || r.start >= section_len {
        Err(StegError::InvalidSafeRange { start: r.start, len: r.len })
    } else {
        let room = section_len - r.start;
        let clipped = if r.len < room {
            r.len
        } else {
            room
        };
        Ok(SafeRange { start: r.start, len: clipped })
    }
}

/// Sort ranges ascending by start offset, preserving the covered offsets.
fn sort_by_start(v: &mut Vec<SafeRange>)
    ensures
        final(v)@.len() == old(v)@.len(),
        forall|k: int, l: int|
            0 <= k < l < final(v)@.len() ==> final(v)@[k].start <= final(v)@[l].start,
        forall|i: int| covered(final(v)@, i) <==> covered(old(v)@, i),
        forall|r: SafeRange| final(v)@.contains(r) ==> old(v)@.contains(r),
{
    let n = v.len();
    let ghost orig = v@;
    let mut m: usize = 1;
    while m < n
        invariant
            n == v@.len(),
            v@.len() == orig.len(),
            1 <= m,
            forall|k: int, l: int| 0 <= k < l < m && l < v@.len() ==> v@[k].start <= v@[l].start,
            forall|i: int| covered(v@, i) <==> covered(orig, i),
            forall|r: SafeRange| v@.contains(r) ==> orig.contains(r),
        decreases n - m,
    {
        let mut j: usize = m;
        while j > 0 && v[j - 1].start > v[j].start
            invariant
                n == v@.len(),
                v@.len() == orig.len(),
                0 <= j <= m < n,
                forall|k: int, l: int|
                    0 <= k < l <= m && l != j ==> v@[k].start <= v@[l].start,
                forall|i: int| covered(v@, i) <==> covered(orig, i),
                forall|r: SafeRange| v@.contains(r) ==> orig.contains(r),
            decreases j,
        {
            let ghost before = v@;
            let a = v[j - 1];
            let b = v[j];
            v.set(j - 1, b);
            v.set(j, a);
            proof {
                lemma_covered_swap(before, v@, j - 1, j as int);
                assert forall|r: SafeRange| v@.contains(r) implies orig.contains(r) by {
                    let k = choose|k: int| 0 <= k < v@.len() && v@[k] == r;
                    if k == j - 1 {
                        assert(before[j as int] == r);
                    } else if k == j {
                        assert(before[j - 1] == r);
                    } else {
                        assert(before[k] == r);
                    }
                }
            }
            j = j - 1;
        }
        proof {
            assert forall|k: int, l: int| 0 <= k < l <= m implies v@[k].start <= v@[l].start by {
                if l == j {
                    if k < j - 1 {
                        assert(v@[k].start <= v@[j - 1].start);
                    }
                }
            }
        }
        m = m + 1;
    }
}

/// Merge sorted, clipped ranges into normal form, preserving coverage.
fn merge_sorted(v: &Vec<SafeRange>, section_len: usize) -> (out: Vec<SafeRange>)
    requires
        forall|k: int, l: int| 0 <= k < l < v@.len() ==> v@[k].start <= v@[l].start,
        forall|k: int| 0 <= k < v@.len() ==> (#[trigger] v@[k]).len > 0,
        forall|k: int| 0 <= k < v@.len() ==> (#[trigger] v@[k]).start + v@[k].len <= section_len,
    ensures
        ranges_normal(out@, section_len as int),
        forall|i: int| covered(out@, i) <==> covered(v@, i),
{
    let mut out: Vec<SafeRange> = Vec::new();
    let n = v.len();
    let mut k: usize = 0;
    while k < n
        invariant
            n == v@.len(),
            0 <= k <= n,
            forall|kk: int, l: int| 0 <= kk < l < v@.len() ==> v@[kk].start <= v@[l].start,
            forall|kk: int| 0 <= kk < v@.len() ==> (#[trigger] v@[kk]).len > 0,
            forall|kk: int|
                0 <= kk < v@.len() ==> (#[trigger] v@[kk]).start + v@[kk].len <= section_len,
            ranges_normal(out@, section_len as int),
            forall|i: int| covered(out@, i) <==> covered(v@.take(k as int), i),
            out@.len() > 0 <==> k > 0,
            out@.len() > 0 && k > 0 ==> out@.last().start <= v@[k - 1].start,
        decreases n - k,
    {
        let r = v[k];
        let ghost prefix = v@.take(k as int);
        proof {
            lemma_covered_push(prefix, r);
            assert(v@.take(k + 1) =~= prefix.push(r));
        }
        if out.len() == 0 {
            let ghost before = out@;
            out.push(r);
            proof {
                lemma_covered_push(before, r);
                assert forall|i: int| covered(out@, i) <==> covered(v@.take(k + 1), i) by {
                    assert(covered(out@, i) <==> covered(before, i) || range_covers(r, i));
                    assert(covered(v@.take(k + 1), i) <==> covered(prefix, i) || range_covers(
                        r,
                        i,
                    ));
                    assert(covered(before, i) <==> covered(prefix, i));
                }
            }
        } else {
            let li = out.len() - 1;
            let last = out[li];
            let last_end = last.start + last.len;
            if r.start > last_end {
                let ghost before = out@;
                out.push(r);
                proof {
                    lemma_covered_push(before, r);
                    assert forall|i: int| covered(out@, i) <==> covered(v@.take(k + 1), i) by {
                        assert(covered(out@, i) <==> covered(before, i) || range_covers(r, i));
                        assert(covered(v@.take(k + 1), i) <==> covered(prefix, i) || range_covers(
                            r,
                            i,
                        ));
                        assert(covered(before, i) <==> covered(prefix, i));
                    }
                }
            } else {
                let r_end = r.start + r.len;
                let new_end = if r_end > last_end {
                    r_end
                } else {
                    last_end
                };
                let merged = SafeRange { start: last.start, len: new_end - last.start };
                let ghost before = out@;
                out.set(li, merged);
                proof {
                    lemma_covered_update_last(before, merged);
                    assert(out@ =~= before.update(before.len() - 1, merged));
                    assert forall|i: int| covered(out@, i) implies covered(
                        v@.take(k + 1),
                        i,
                    ) by {
                        if range_covers(merged, i) {
                            assert(range_covers(last, i) || range_covers(r, i));
                            if range_covers(last, i) {
                                assert(covered(before, i)) by {
                                    assert(range_covers(before[before.len() - 1], i));
                                }
                            }
                        } else {
                            assert(covered(before, i)) by {
                                let kk = choose|kk: int|
                                    0 <= kk < before.take(before.len() - 1).len()
                                        && #[trigger] range_covers(
                                        before.take(before.len() - 1)[kk],
                                        i,
                                    );
                                assert(range_covers(before[kk], i));
                            }
                        }
                    }
                    assert forall|i: int| covered(v@.take(k + 1), i) implies covered(
                        out@,
                        i,
                    ) by {
                        assert(covered(prefix.push(r), i));
                        assert(last.start <= r.start);
                        if covered(prefix, i) {
                            assert(covered(before, i));
                            let kk = choose|kk: int|
                                0 <= kk < before.len() && #[trigger] range_covers(before[kk], i);
                            if kk == before.len() - 1 {
                                assert(range_covers(merged, i));
                            } else {
                                assert(before.take(before.len() - 1)[kk] == before[kk]);
                                assert(range_covers(before.take(before.len() - 1)[kk], i));
                                assert(covered(before.take(before.len() - 1), i));
                            }
                        } else {
                            assert(range_covers(r, i));
                            assert(range_covers(merged, i));
                        }
                        assert(covered(before.take(before.len() - 1), i) || range_covers(
                            merged,
                            i,
                        ));
                        assert(covered(before.update(before.len() - 1, merged), i));
                    }
                }
            }
        }
        k = k + 1;
    }
    proof {
        assert(v@.take(n as int) =~= v@);
    }
    out
}

/// Normalize caller-supplied safe ranges against a section of `section_len`
/// bytes: reject empty or out-of-section ranges, clip ranges reaching past
/// the end, sort ascending, and merge overlapping or adjacent ranges.  With
/// no ranges supplied, the whole section is the one safe range.
pub fn normalize(ranges: &Vec<SafeRange>, section_len: usize) -> (out: Result<
    Vec<SafeRange>,
    StegError,
>)
    ensures
        match out {
            Ok(ns) => {
                &&& !has_invalid_range(ranges@, section_len as int)
                &&& ranges_normal(ns@, section_len as int)
                &&& forall|i: int|
                    covered(ns@, i) <==> normalized_covers(ranges@, section_len as int, i)
            },
            Err(e) => {
                &&& has_invalid_range(ranges@, section_len as int)
                &&& first_invalid_from(ranges@, section_len as int, 0) matches Some(r) && e == (
                StegError::InvalidSafeRange { start: r.start, len: r.len })
            },
        },
{
    if ranges.len() == 0 {
        let mut full: Vec<SafeRange> = Vec::new();
        if section_len > 0 {
            full.push(SafeRange { start: 0, len: section_len });
        }
        proof {
            assert forall|i: int|
                covered(full@, i) <==> normalized_covers(
                    ranges@,
                    section_len as int,
                    i,
                ) by {
                if 0 <= i < section_len {
                    assert(range_covers(full@[0], i));
                }
            }
        }
        return Ok(full);
    }
    let mut clipped: Vec<SafeRange> = Vec::new();
    let n = ranges.len();
    let mut k: usize = 0;
    while k < n
        invariant
            n == ranges@.len(),
            0 <= k <= n,
            clipped@.len() == k,
            first_invalid_from(ranges@, section_len as int, 0) == first_invalid_from(
                ranges@,
                section_len as int,
                k as int,
            ),
            forall|kk: int| 0 <= kk < k ==> !range_invalid(ranges@[kk], section_len as int),
            forall|kk: int| 0 <= kk < k ==> (#[trigger] clipped@[kk]).len > 0,
            forall|kk: int|
                0 <= kk < k ==> (#[trigger] clipped@[kk]).start + clipped@[kk].len <= section_len,
            forall|kk: int, i: int|
                0 <= kk < k ==> (#[trigger] range_covers(clipped@[kk], i) <==> range_covers(
                    ranges@[kk],
                    i,
                ) && i < section_len),
        decreases n - k,
    {
        let r = ranges[k];
        match clip_range(r, section_len) {
            Ok(c) => {
                clipped.push(c);
            },
            Err(e) => {
                return Err(e);
            },
        }
        k = k + 1;
    }
    let ghost clipped0 = clipped@;
    proof {
        assert forall|i: int| covered(clipped0, i) implies covered(ranges@, i)
            && i < section_len by {
            let kk = choose|kk: int| 0 <= kk < clipped0.len() && #[trigger] range_covers(
                clipped0[kk],
                i,
            );
            assert(range_covers(ranges@[kk], i));
        }
        assert forall|i: int| covered(ranges@, i) && i < section_len implies covered(
            clipped0,
            i,
        ) by {
            let kk = choose|kk: int| 0 <= kk < ranges@.len() && #[trigger] range_covers(
                ranges@[kk],
                i,
            );
            assert(range_covers(clipped0[kk], i));
        }
    }
    sort_by_start(&mut clipped);
    proof {
        assert forall|kk: int| 0 <= kk < clipped@.len() implies (#[trigger] clipped@[kk]).len > 0
            && clipped@[kk].start + clipped@[kk].len <= section_len by {
            assert(clipped@.contains(clipped@[kk]));
            assert(clipped0.contains(clipped@[kk]));
            let j = choose|j: int| 0 <= j < clipped0.len() && clipped0[j] == clipped@[kk];
            assert(clipped0[j].len > 0);
        }
    }
    let merged = merge_sorted(&clipped, section_len);
    proof {
        assert forall|i: int|
            covered(merged@, i) <==> normalized_covers(ranges@, section_len as int, i) by {
            assert(covered(merged@, i) <==> covered(clipped@, i));
            assert(covered(clipped@, i) <==> covered(clipped0, i));
            assert(covered(clipped0, i) <==> covered(ranges@, i) && i < section_len);
        }
    }
    Ok(merged)
}

} // verus!
