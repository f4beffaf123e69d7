//! The payload codec.
//!
//! A payload is carried as a self-delimiting bitstream: a fixed 64-bit
//! big-endian length prefix (the payload's byte length), then the payload
//! bytes, most significant bit first.  Decoding reads the prefix, checks that
//! the declared length's bit requirement does not exceed the bits actually
//! available, and reassembles exactly that many payload bytes, never reading
//! further.

use vstd::prelude::*;

use vstd::arithmetic::power2::pow2;

use crate::errors::StegError;

verus! {

/// Bit `j` of `n`, counting from the least significant bit.
pub open spec fn bit_at(n: u64, j: u64) -> bool {
    (n >> j) & 1 == 1
}

/// The low `w` bits of `n`, most significant first.
pub open spec fn bits_of(n: u64, w: int) -> Seq<bool> {
    Seq::new(w as nat, |k: int| bit_at(n, (w - 1 - k) as u64))
}

/// The value of a bit string read most significant bit first.
pub open spec fn bits_val(s: Seq<bool>) -> nat
    decreases s.len(),
{
    if s.len() == 0 {
        0
    } else {
        2 * bits_val(s.drop_last()) + (if s.last() {
            1nat
        } else {
            0
        })
    }
}

/// A bit string's value is below two to its length.
pub proof fn lemma_bits_val_bound(s: Seq<bool>)
    ensures
        bits_val(s) < pow2(s.len()),
    decreases s.len(),
{
    vstd::arithmetic::power2::lemma_pow2_pos(s.len());
    if s.len() > 0 {
        lemma_bits_val_bound(s.drop_last());
        vstd::arithmetic::power2::lemma_pow2_unfold(s.len());
    }
}

/// Reading back the bits of a value gives the value.
pub proof fn lemma_bits_of_val(n: u64, w: int)
    requires
        0 <= w <= 64,
        n < pow2(w as nat),
    ensures
        bits_val(bits_of(n, w)) == n,
    decreases w,
{
    if w == 0 {
        assert(pow2(0) == 1) by {
            vstd::arithmetic::power2::lemma2_to64();
        }
        assert(bits_of(n, 0).len() == 0);
    } else {
        let s = bits_of(n, w);
        let h = n >> 1u64;
        assert((n >> 1u64) == n / 2) by (bit_vector);
        assert(n == 2 * (n >> 1u64) + ((n >> 0u64) & 1)) by (bit_vector);
        assert((n >> 0u64) & 1 == 0 || (n >> 0u64) & 1 == 1) by (bit_vector);
        assert(pow2(w as nat) == 2 * pow2((w - 1) as nat)) by {
            vstd::arithmetic::power2::lemma_pow2_unfold(w as nat);
        }
        assert(h < pow2((w - 1) as nat));
        lemma_bits_of_val(h, w - 1);
        assert(s.drop_last() =~= bits_of(h, w - 1)) by {
            assert forall|k: int| 0 <= k < w - 1 implies s.drop_last()[k] == bits_of(h, w - 1)[k] by {
                let j = (w - 1 - k) as u64;
                assert(1 <= j <= 63);
                assert((n >> j) & 1 == ((n >> 1u64) >> (j - 1) as u64) & 1) by (bit_vector)
                    requires
                        1 <= j <= 63,
                ;
            }
        }
        assert(s.last() == bit_at(n, 0));
    }
}

/// The most-significant-bit-first bits of a byte.
pub open spec fn byte_bits(x: u8) -> Seq<bool> {
    bits_of(x as u64, 8)
}

/// The bits of the bytes of `p` at index `k` and after.
pub open spec fn bytes_bits_from(p: Seq<u8>, k: int) -> Seq<bool>
    decreases p.len() - k,
{
    if 0 <= k < p.len() {
        byte_bits(p[k]) + bytes_bits_from(p, k + 1)
    } else {
        Seq::<bool>::empty()
    }
}

/// The encoded bitstream of a payload: 64-bit big-endian byte length, then
/// the payload bytes, most significant bit first.
pub open spec fn encode_bits(p: Seq<u8>) -> Seq<bool> {
    bits_of(p.len() as u64, 64) + bytes_bits_from(p, 0)
}

/// `bytes_bits_from` lays the bytes out eight bits apiece.
pub proof fn lemma_bytes_bits_from(p: Seq<u8>, k: int)
    requires
        0 <= k <= p.len(),
    ensures
        bytes_bits_from(p, k).len() == 8 * (p.len() - k),
        forall|j: int, m: int|
            k <= j < p.len() && 0 <= m < 8 ==> #[trigger] bytes_bits_from(p, k)[8 * (j - k) + m]
                == byte_bits(p[j])[m],
    decreases p.len() - k,
{
    if k < p.len() {
        lemma_bytes_bits_from(p, k + 1);
        assert forall|j: int, m: int| k <= j < p.len() && 0 <= m < 8 implies #[trigger] bytes_bits_from(
            p,
            k,
        )[8 * (j - k) + m] == byte_bits(p[j])[m] by {
            if j > k {
                assert(bytes_bits_from(p, k + 1)[8 * (j - (k + 1)) + m] == byte_bits(p[j])[m]);
                assert(bytes_bits_from(p, k)[8 * (j - k) + m] == bytes_bits_from(p, k + 1)[8 * (j
                    - k) + m - 8]);
                assert(8 * (j - (k + 1)) + m == 8 * (j - k) + m - 8);
            } else {
                assert(bytes_bits_from(p, k)[8 * (j - k) + m] == byte_bits(p[k])[m]);
            }
        }
    }
}

/// The byte length a bitstream declares (meaningful once it has 64 bits).
pub open spec fn declared_len(bits: Seq<bool>) -> nat {
    bits_val(bits.take(64))
}

/// Does the bitstream hold the bits its prefix declares?
pub open spec fn decode_ok(bits: Seq<bool>) -> bool {
    bits.len() >= 64 && 64 + 8 * declared_len(bits) <= bits.len()
}

/// The payload a decodable bitstream carries.
pub open spec fn decoded_payload(bits: Seq<bool>) -> Seq<u8> {
    Seq::new(declared_len(bits), |j: int| bits_val(bits.subrange(64 + 8 * j, 64 + 8 * j + 8)) as u8)
}

/// `n` clamped to a `usize`.
pub open spec fn clamp_usize(n: int) -> usize {
    if n <= usize::MAX {
        n as usize
    } else {
        usize::MAX
    }
}

/// Encode a payload into its self-delimiting bitstream.
pub fn encode_payload(payload: &Vec<u8>) -> (bits: Vec<bool>)
    ensures
        bits@ == encode_bits(payload@),
        bits@.len() == 64 + 8 * payload@.len(),
{
    let n: u64 = payload.len() as u64;
    let mut bits: Vec<bool> = Vec::new();
    let mut k: usize = 0;
    while k < 64
        invariant
            n == payload@.len() as u64,
            0 <= k <= 64,
            bits@.len() == k,
            forall|j: int| 0 <= j < k ==> bits@[j] == bits_of(n, 64)[j],
        decreases 64 - k,
    {
        let sh: u64 = 63 - (k as u64);
        bits.push((n >> sh) & 1 == 1);
        k = k + 1;
    }
    proof {
        assert(bits@ =~= bits_of(n, 64));
    }
    let ghost prefix = bits@;
    let np = payload.len();
    let mut j: usize = 0;
    while j < np
        invariant
            np == payload@.len(),
            0 <= j <= np,
            bits@ == prefix + bytes_bits_from(payload@, 0).take(8 * j),
            bits@.len() == 64 + 8 * j,
            prefix.len() == 64,
        decreases np - j,
    {
        let x = payload[j];
        let mut m: usize = 0;
        let ghost snap = bits@;
        while m < 8
            invariant
                0 <= m <= 8,
                x == payload@[j as int],
                bits@.len() == snap.len() + m,
                bits@ == snap + byte_bits(x).take(m as int),
            decreases 8 - m,
        {
            let sh: u64 = 7 - (m as u64);
            bits.push(((x as u64) >> sh) & 1 == 1);
            proof {
                assert(bits@ =~= snap + byte_bits(x).take(m + 1));
            }
            m = m + 1;
        }
        proof {
            lemma_bytes_bits_from(payload@, 0);
            assert(byte_bits(x).take(8) =~= byte_bits(x));
            assert(bits@ =~= prefix + bytes_bits_from(payload@, 0).take(8 * (j + 1))) by {
                assert(bits@ == (prefix + bytes_bits_from(payload@, 0).take(8 * j)) + byte_bits(x));
                assert forall|m2: int| 0 <= m2 < 8 implies bytes_bits_from(payload@, 0)[8 * j + m2]
                    == byte_bits(x)[m2] by {
                    assert(bytes_bits_from(payload@, 0)[8 * ((j as int) - 0) + m2] == byte_bits(
                        payload@[j as int],
                    )[m2]);
                }
            }
        }
        j = j + 1;
    }
    proof {
        lemma_bytes_bits_from(payload@, 0);
        assert(bytes_bits_from(payload@, 0).take(8 * (np as int)) =~= bytes_bits_from(payload@, 0));
        assert(bits@ =~= encode_bits(payload@));
    }
    bits
}

/// Read the value of `w` bits of `bits` starting at `start`, most
/// significant first.
fn read_bits_val(bits: &Vec<bool>, start: usize, w: usize) -> (n: u64)
    requires
        start + w <= bits@.len(),
        w <= 64,
    ensures
        n == bits_val(bits@.subrange(start as int, start + w)),
{
    let blen = bits.len();
    let mut acc: u64 = 0;
    let mut k: usize = 0;
    proof {
        vstd::arithmetic::power2::lemma_pow2_pos(0);
        assert(bits@.subrange(start as int, start as int).len() == 0);
    }
    while k < w
        invariant
            blen == bits@.len(),
            start + w <= blen,
            w <= 64,
            0 <= k <= w,
            acc == bits_val(bits@.subrange(start as int, start as int + k)),
            acc < pow2(k as nat),
        decreases w - k,
    {
        proof {
            vstd::arithmetic::power2::lemma_pow2_unfold((k + 1) as nat);
            vstd::arithmetic::power2::lemma2_to64();
            assert(pow2((k + 1) as nat) <= pow2(64)) by {
                if k + 1 < 64 {
                    vstd::arithmetic::power2::lemma_pow2_strictly_increases((k + 1) as nat, 64);
                }
            }
        }
        let bitv: u64 = if bits[start + k] {
            1
        } else {
            0
        };
        proof {
            let s1 = bits@.subrange(start as int, start as int + k + 1);
            assert(s1.drop_last() =~= bits@.subrange(start as int, start as int + k));
            assert(s1.last() == bits@[start as int + k]);
            assert(2 * acc + bitv < 2 * pow2(k as nat));
        }
        acc = 2 * acc + bitv;
        k = k + 1;
    }
    acc
}

/// Decode a bitstream back into its payload.  Fails with
/// [`StegError::InsufficientData`] when the stream is shorter than its length
/// prefix, or than the payload the prefix declares.
pub fn decode_payload(bits: &Vec<bool>) -> (out: Result<Vec<u8>, StegError>)
    ensures
        match out {
            Ok(p) => decode_ok(bits@) && p@ == decoded_payload(bits@),
            Err(e) => !decode_ok(bits@) && e == (StegError::InsufficientData {
                needed: clamp_usize(
                    if bits@.len() < 64 {
                        64
                    } else {
                        64 + 8 * declared_len(bits@) as int
                    },
                ),
                available: bits@.len() as usize,
            }),
        },
{
    let avail = bits.len();
    if avail < 64 {
        return Err(StegError::InsufficientData { needed: 64, available: avail });
    }
    let n = read_bits_val(bits, 0, 64);
    proof {
        assert(bits@.subrange(0, 64) =~= bits@.take(64));
    }
    let room: usize = (avail - 64) / 8;
    if n > room as u64 {
        proof {
            assert(8 * (room as int) <= avail - 64 < 8 * (room as int) + 8);
            assert(!decode_ok(bits@));
            if 64 + 8 * declared_len(bits@) <= usize::MAX {
                assert(clamp_usize(64 + 8 * declared_len(bits@) as int) == (64 + 8 * n) as usize);
            }
        }
        let needed: usize = if n <= ((usize::MAX - 64) / 8) as u64 {
            64 + 8 * (n as usize)
        } else {
            usize::MAX
        };
        return Err(StegError::InsufficientData { needed, available: avail });
    }
    let count = n as usize;
    let mut p: Vec<u8> = Vec::new();
    let mut j: usize = 0;
    while j < count
        invariant
            avail == bits@.len(),
            avail >= 64,
            count <= (avail - 64) / 8,
            0 <= j <= count,
            p@.len() == j,
            count == declared_len(bits@),
            forall|jj: int|
                0 <= jj < j ==> p@[jj] == bits_val(
                    bits@.subrange(64 + 8 * jj, 64 + 8 * jj + 8),
                ) as u8,
        decreases count - j,
    {
        let v = read_bits_val(bits, 64 + 8 * j, 8);
        proof {
            lemma_bits_val_bound(bits@.subrange(64 + 8 * (j as int), 64 + 8 * (j as int) + 8));
            vstd::arithmetic::power2::lemma2_to64();
        }
        p.push(v as u8);
        j = j + 1;
    }
    proof {
        assert(p@ =~= decoded_payload(bits@));
    }
    Ok(p)
}

/// The codec round trip: a bitstream that begins with the encoding of a
/// payload — whatever bits follow it — decodes back to exactly that payload.
pub proof fn lemma_codec_roundtrip(p: Seq<u8>, t: Seq<bool>)
    requires
        p.len() < pow2(64),
    ensures
        decode_ok(encode_bits(p) + t),
        decoded_payload(encode_bits(p) + t) == p,
{
    let s = encode_bits(p) + t;
    vstd::arithmetic::power2::lemma2_to64();
    assert(pow2(64) == 0x10000000000000000) by {
        vstd::arithmetic::power2::lemma_pow2_unfold(64);
        vstd::arithmetic::power2::lemma2_to64();
    }
    lemma_bytes_bits_from(p, 0);
    assert(s.take(64) =~= bits_of(p.len() as u64, 64));
    lemma_bits_of_val(p.len() as u64, 64);
    assert(declared_len(s) == p.len());
    assert forall|j: int| 0 <= j < p.len() implies decoded_payload(s)[j] == p[j] by {
        let chunk = s.subrange(64 + 8 * j, 64 + 8 * j + 8);
        assert(chunk =~= byte_bits(p[j])) by {
            assert forall|m: int| 0 <= m < 8 implies chunk[m] == byte_bits(p[j])[m] by {
                assert(s[64 + 8 * j + m] == bytes_bits_from(p, 0)[8 * j + m]);
                assert(bytes_bits_from(p, 0)[8 * (j - 0) + m] == byte_bits(p[j])[m]);
            }
        }
        vstd::arithmetic::power2::lemma2_to64();
        lemma_bits_of_val(p[j] as u64, 8);
    }
    assert(decoded_payload(s) =~= p);
}

} // verus!
