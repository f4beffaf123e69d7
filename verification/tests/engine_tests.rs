use steg86::codec::{decode_payload, encode_payload};
use steg86::engine::{embed, extract, profile};
use steg86::errors::StegError;
use steg86::extract::extract_bits;
use steg86::insn::{decode_one, Bitness, InsnKind};
use steg86::ranges::{normalize, SafeRange};
use steg86::scan::{scan, BinaryView};

fn view32(bytes: Vec<u8>) -> BinaryView {
    BinaryView { bytes, base_offset: 0, bitness: Bitness::B32 }
}

/// A section holding `n` two-byte sites (`add eax, eax`) and a final `ret`.
fn section_with_sites(n: usize) -> Vec<u8> {
    let mut bytes = Vec::new();
    for _ in 0..n {
        bytes.push(0x01);
        bytes.push(0xC0);
    }
    bytes.push(0xC3);
    bytes
}

fn full_range(view: &BinaryView) -> Vec<SafeRange> {
    normalize(&Vec::new(), view.bytes.len()).unwrap()
}

#[test]
fn normalize_merges_overlapping_ranges() {
    let ranges = vec![SafeRange { start: 10, len: 5 }, SafeRange { start: 12, len: 10 }];
    let out = normalize(&ranges, 100).unwrap();
    assert_eq!(out.len(), 1);
    assert_eq!(out[0].start, 10);
    assert_eq!(out[0].len, 12);
}

#[test]
fn normalize_rejects_zero_length_range() {
    let ranges = vec![SafeRange { start: 3, len: 0 }];
    let out = normalize(&ranges, 100);
    assert_eq!(out, Err(StegError::InvalidSafeRange { start: 3, len: 0 }));
}

#[test]
fn normalize_rejects_range_past_section_end() {
    let ranges = vec![SafeRange { start: 200, len: 4 }];
    let out = normalize(&ranges, 100);
    assert_eq!(out, Err(StegError::InvalidSafeRange { start: 200, len: 4 }));
}

#[test]
fn normalize_sorts_and_clips() {
    let ranges = vec![SafeRange { start: 50, len: 100 }, SafeRange { start: 0, len: 10 }];
    let out = normalize(&ranges, 60).unwrap();
    assert_eq!(out, vec![SafeRange { start: 0, len: 10 }, SafeRange { start: 50, len: 10 }]);
}

#[test]
fn normalize_defaults_to_whole_section() {
    let out = normalize(&Vec::new(), 42).unwrap();
    assert_eq!(out, vec![SafeRange { start: 0, len: 42 }]);
}

#[test]
fn decode_add_register_register() {
    let bytes = vec![0x01, 0xC3]; // add ebx, eax
    let insn = decode_one(&bytes, 0, 2, Bitness::B32).unwrap();
    assert_eq!(insn.len, 2);
    assert!(matches!(insn.kind, InsnKind::AluRR { dst: 3, src: 0, .. }));
}

#[test]
fn decode_rex_swapped_operands() {
    // 4C 01 C8 = add rax, r9 ; 49 03 C1 decodes to the same instruction.
    let a = vec![0x4C, 0x01, 0xC8];
    let b = vec![0x49, 0x03, 0xC1];
    let ia = decode_one(&a, 0, 3, Bitness::B64).unwrap();
    let ib = decode_one(&b, 0, 3, Bitness::B64).unwrap();
    assert_eq!(ia, ib);
    assert!(matches!(ia.kind, InsnKind::AluRR { dst: 0, src: 9, .. }));
}

#[test]
fn decode_never_reads_past_range_end() {
    let bytes = vec![0x01, 0xC0]; // complete instruction, but range ends early
    assert!(decode_one(&bytes, 0, 1, Bitness::B32).is_none());
}

#[test]
fn decode_mov_immediate_length() {
    let bytes = vec![0xB8, 0x01, 0x02, 0x03, 0x04, 0xC3];
    let insn = decode_one(&bytes, 0, 6, Bitness::B32).unwrap();
    assert_eq!(insn.len, 5);
    assert!(matches!(insn.kind, InsnKind::MovImm { reg: 0 }));
    let insn16 = decode_one(&bytes, 0, 6, Bitness::B16).unwrap();
    assert_eq!(insn16.len, 3);
}

#[test]
fn decode_memory_operand_with_sib() {
    // add [eax + ebx*2 + 0x10], ecx : 01 4C 58 10
    let bytes = vec![0x01, 0x4C, 0x58, 0x10];
    let insn = decode_one(&bytes, 0, 4, Bitness::B32).unwrap();
    assert_eq!(insn.len, 4);
    assert!(matches!(insn.kind, InsnKind::Mem { .. }));
}

#[test]
fn profile_counts_sites_and_bits() {
    let view = view32(section_with_sites(5));
    let ranges = full_range(&view);
    let p = profile(&view, &ranges).unwrap();
    assert_eq!(p.sites, 5);
    assert_eq!(p.bits, 5);
    assert_eq!(p.bytes, 0);
}

#[test]
fn profile_ignores_instructions_without_variants() {
    // nop / push ecx / test eax, ebx / ret: no site among them
    let view = view32(vec![0x90, 0x51, 0x85, 0xD8, 0xC3]);
    let ranges = full_range(&view);
    let p = profile(&view, &ranges).unwrap();
    assert_eq!(p.sites, 0);
    assert_eq!(p.bits, 0);
}

#[test]
fn scan_is_idempotent_on_unmodified_binary() {
    let view = view32(section_with_sites(8));
    let ranges = full_range(&view);
    let first = scan(&view, &ranges).unwrap();
    let second = scan(&view, &ranges).unwrap();
    assert_eq!(first.len(), second.len());
    for (a, b) in first.iter().zip(second.iter()) {
        assert_eq!(a.offset, b.offset);
        assert_eq!(a.length, b.length);
        assert_eq!(a.variants, b.variants);
        assert_eq!(a.current_variant_index, b.current_variant_index);
    }
}

#[test]
fn embed_then_extract_round_trips() {
    let view = view32(section_with_sites(100));
    let ranges = full_range(&view);
    let payload = vec![0xDE, 0xAD, 0xBE, 0xEF];
    let embedded = embed(&view, &ranges, &payload).unwrap();
    assert_eq!(embedded.len(), view.bytes.len());
    let view2 = view32(embedded);
    let recovered = extract(&view2, &ranges).unwrap();
    assert_eq!(recovered, payload);
}

#[test]
fn embed_round_trips_empty_payload() {
    let view = view32(section_with_sites(64));
    let ranges = full_range(&view);
    let payload: Vec<u8> = Vec::new();
    let embedded = embed(&view, &ranges, &payload).unwrap();
    let view2 = view32(embedded);
    let recovered = extract(&view2, &ranges).unwrap();
    assert_eq!(recovered, payload);
}

#[test]
fn embed_succeeds_at_exact_capacity() {
    // one payload byte needs 64 prefix bits + 8 payload bits = 72 sites
    let view = view32(section_with_sites(72));
    let ranges = full_range(&view);
    let payload = vec![0x5A];
    let embedded = embed(&view, &ranges, &payload).unwrap();
    let view2 = view32(embedded);
    assert_eq!(extract(&view2, &ranges).unwrap(), payload);
}

#[test]
fn embed_fails_one_bit_past_capacity() {
    let view = view32(section_with_sites(71));
    let ranges = full_range(&view);
    let payload = vec![0x5A];
    let out = embed(&view, &ranges, &payload);
    assert_eq!(out, Err(StegError::CapacityExceeded { needed: 72, available: 71 }));
}

#[test]
fn embed_preserves_non_site_bytes() {
    let view = view32(section_with_sites(80));
    let ranges = full_range(&view);
    let payload = vec![0x13, 0x37];
    let embedded = embed(&view, &ranges, &payload).unwrap();
    // the trailing ret is outside every site
    assert_eq!(*embedded.last().unwrap(), 0xC3);
    // every site still holds one of the two variant encodings
    let sites = scan(&view, &ranges).unwrap();
    for s in sites.iter() {
        let live = &embedded[s.offset..s.offset + s.length];
        assert!(s.variants.iter().any(|v| v.as_slice() == live));
    }
}

#[test]
fn extract_unaffected_by_non_site_byte_flip() {
    let view = view32(section_with_sites(80));
    let ranges = full_range(&view);
    let payload = vec![0xA5];
    let mut embedded = embed(&view, &ranges, &payload).unwrap();
    let ret_at = embedded.len() - 1;
    embedded[ret_at] = 0xCC; // corrupt the trailing non-site byte
    let view2 = view32(embedded);
    assert_eq!(extract(&view2, &ranges).unwrap(), payload);
}

#[test]
fn corrupt_site_byte_is_detected() {
    let view = view32(section_with_sites(80));
    let ranges = full_range(&view);
    let payload = vec![0xA5];
    let mut embedded = embed(&view, &ranges, &payload).unwrap();
    let sites = scan(&view, &ranges).unwrap();
    // rewrite the first site to bytes that match none of its variants
    embedded[sites[0].offset + 1] = 0xC9; // add ecx, ecx instead of add eax, eax
    let out = extract_bits(&embedded, &sites);
    assert_eq!(out, Err(StegError::CorruptSite { offset: sites[0].offset }));
}

#[test]
fn extract_with_too_few_bits_reports_insufficient_data() {
    let view = view32(section_with_sites(10));
    let ranges = full_range(&view);
    let out = extract(&view, &ranges);
    assert_eq!(out, Err(StegError::InsufficientData { needed: 64, available: 10 }));
}

#[test]
fn scan_fails_on_fully_undecodable_range() {
    let view = view32(vec![0xFF, 0xFF, 0x90]);
    let ranges = full_range(&view);
    let out = profile(&view, &ranges);
    assert_eq!(out, Err(StegError::Decode { offset: 0 }));
}

#[test]
fn scan_stops_softly_mid_range() {
    // one site, then an undecodable byte, then another would-be site
    let view = view32(vec![0x01, 0xC0, 0xFF, 0x01, 0xC0]);
    let ranges = full_range(&view);
    let p = profile(&view, &ranges).unwrap();
    assert_eq!(p.sites, 1);
}

#[test]
fn sites_respect_safe_range_boundaries() {
    // sites everywhere, but only the first two pairs are declared safe
    let view = view32(section_with_sites(10));
    let ranges = normalize(&vec![SafeRange { start: 0, len: 4 }], view.bytes.len()).unwrap();
    let p = profile(&view, &ranges).unwrap();
    assert_eq!(p.sites, 2);
}

#[test]
fn truncated_trailing_instruction_is_not_a_site() {
    // the safe range cuts the second instruction in half
    let view = view32(section_with_sites(10));
    let ranges = normalize(&vec![SafeRange { start: 0, len: 3 }], view.bytes.len()).unwrap();
    let p = profile(&view, &ranges).unwrap();
    assert_eq!(p.sites, 1);
}

#[test]
fn codec_round_trips_payload() {
    let payload = vec![0x00, 0xFF, 0x12, 0x34];
    let bits = encode_payload(&payload);
    assert_eq!(bits.len(), 64 + 8 * payload.len());
    assert_eq!(decode_payload(&bits).unwrap(), payload);
}

#[test]
fn codec_prefix_is_big_endian_length() {
    let payload = vec![0xAA];
    let bits = encode_payload(&payload);
    // length 1: 63 zero bits then a one
    for k in 0..63 {
        assert!(!bits[k]);
    }
    assert!(bits[63]);
    // 0xAA = 10101010, most significant bit first
    let expected = [true, false, true, false, true, false, true, false];
    for k in 0..8 {
        assert_eq!(bits[64 + k], expected[k]);
    }
}

#[test]
fn codec_rejects_short_stream() {
    let bits = vec![false; 40];
    let out = decode_payload(&bits);
    assert_eq!(out, Err(StegError::InsufficientData { needed: 64, available: 40 }));
}

#[test]
fn codec_rejects_declared_length_past_available_bits() {
    // declare 2 bytes but supply bits for none
    let payload = vec![0x01, 0x02];
    let bits = encode_payload(&payload);
    let truncated: Vec<bool> = bits[..64].to_vec();
    let out = decode_payload(&truncated);
    assert_eq!(out, Err(StegError::InsufficientData { needed: 80, available: 64 }));
}

#[test]
fn embed_works_in_16_bit_sections() {
    let mut bytes = Vec::new();
    for _ in 0..80 {
        bytes.push(0x01);
        bytes.push(0xC0);
    }
    let view = BinaryView { bytes, base_offset: 0, bitness: Bitness::B16 };
    let ranges = full_range(&view);
    let payload = vec![0x42];
    let embedded = embed(&view, &ranges, &payload).unwrap();
    let view2 = BinaryView { bytes: embedded, base_offset: 0, bitness: Bitness::B16 };
    assert_eq!(extract(&view2, &ranges).unwrap(), payload);
}

#[test]
fn embed_works_with_rex_prefixed_sites() {
    // 80 copies of add r9, rax (49 01 C1), 64-bit
    let mut bytes = Vec::new();
    for _ in 0..80 {
        bytes.push(0x49);
        bytes.push(0x01);
        bytes.push(0xC1);
    }
    let view = BinaryView { bytes, base_offset: 0, bitness: Bitness::B64 };
    let ranges = full_range(&view);
    let payload = vec![0x77];
    let embedded = embed(&view, &ranges, &payload).unwrap();
    let view2 = BinaryView { bytes: embedded, base_offset: 0, bitness: Bitness::B64 };
    assert_eq!(extract(&view2, &ranges).unwrap(), payload);
}

#[test]
fn operand_size_prefixed_sites_round_trip() {
    // 80 copies of add ax, ax (66 01 C0) in a 32-bit section
    let mut bytes = Vec::new();
    for _ in 0..80 {
        bytes.push(0x66);
        bytes.push(0x01);
        bytes.push(0xC0);
    }
    let view = view32(bytes);
    let ranges = full_range(&view);
    let payload = vec![0x3C];
    let embedded = embed(&view, &ranges, &payload).unwrap();
    let view2 = view32(embedded);
    assert_eq!(extract(&view2, &ranges).unwrap(), payload);
}

#[test]
fn round_trip_spanning_several_safe_ranges() {
    // sites everywhere, but only two disjoint windows are declared safe
    let view = view32(section_with_sites(120));
    let ranges = normalize(
        &vec![SafeRange { start: 0, len: 80 }, SafeRange { start: 100, len: 80 }],
        view.bytes.len(),
    )
    .unwrap();
    assert_eq!(ranges.len(), 2);
    let payload = vec![0x5E];
    let embedded = embed(&view, &ranges, &payload).unwrap();
    let view2 = view32(embedded);
    assert_eq!(extract(&view2, &ranges).unwrap(), payload);
}

#[test]
fn capacity_does_not_decrease_when_adding_a_range() {
    let view = view32(section_with_sites(10));
    let narrow = normalize(&vec![SafeRange { start: 0, len: 6 }], view.bytes.len()).unwrap();
    let wide = normalize(
        &vec![SafeRange { start: 0, len: 6 }, SafeRange { start: 10, len: 6 }],
        view.bytes.len(),
    )
    .unwrap();
    let p_narrow = profile(&view, &narrow).unwrap();
    let p_wide = profile(&view, &wide).unwrap();
    assert!(p_wide.bits >= p_narrow.bits);
}
