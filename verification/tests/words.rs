use gate_lock::addressing::compute_slot;
use gate_lock::codec::{decode, encode_with_flag_set, Payload};
use gate_lock::errors::SolveError;
use gate_lock::verification::{encode_solved_query, interpret_outcome, CallOutcome};
use gate_lock::word::Word256;

fn w64(x: u64) -> Word256 {
    Word256 { l0: x, l1: 0, l2: 0, l3: 0 }
}

#[test]
fn word_be_bytes_round_trip() {
    let w = Word256 { l0: 0x0102030405060708, l1: 0x1112131415161718, l2: 0xa1a2a3a4a5a6a7a8, l3: 0xdeadbeefcafef00d };
    let bytes = w.to_be_bytes();
    assert_eq!(bytes.len(), 32);
    assert_eq!(bytes[0], 0xde);
    assert_eq!(bytes[7], 0x0d);
    assert_eq!(bytes[31], 0x08);
    let back = Word256::from_be_bytes(&bytes);
    assert_eq!(back, w);
}

#[test]
fn decode_unpacks_the_three_fields() {
    // short = 6, medium = 9, flag clear
    let w = Word256 { l0: 6, l1: 9, l2: 0, l3: 0 };
    let rec = decode(&w);
    assert_eq!(rec.short_field, 6);
    assert_eq!(rec.medium_field, w64(9));
    assert!(!rec.flag_bit);
    // flag bit lives at bit 224, which is bit 32 of the top limb
    let flagged = Word256 { l0: 6, l1: 9, l2: 0, l3: 1 << 32 };
    let rec2 = decode(&flagged);
    assert_eq!(rec2.short_field, 6);
    assert_eq!(rec2.medium_field, w64(9));
    assert!(rec2.flag_bit);
}

#[test]
fn encode_then_decode_preserves_fields_and_sets_flag() {
    // a medium field spanning all three of its limbs
    let medium = Word256 { l0: 0x1111222233334444, l1: 0x5555666677778888, l2: 0x99aabbcc, l3: 0 };
    let out = encode_with_flag_set(0xfeedface12345678, &medium).unwrap();
    let rec = decode(&out);
    assert_eq!(rec.short_field, 0xfeedface12345678);
    assert_eq!(rec.medium_field, medium);
    assert!(rec.flag_bit);
}

#[test]
fn encode_twice_equals_encode_once() {
    let medium = Word256 { l0: 7, l1: 0, l2: 0xffffffff, l3: 0 };
    let once = encode_with_flag_set(41, &medium).unwrap();
    let rec = decode(&once);
    let twice = encode_with_flag_set(rec.short_field, &rec.medium_field).unwrap();
    assert_eq!(twice, once);
}

#[test]
fn encode_rejects_oversized_medium() {
    let too_wide_high = Word256 { l0: 0, l1: 0, l2: 0, l3: 1 };
    assert!(matches!(encode_with_flag_set(1, &too_wide_high), Err(SolveError::EncodingRange)));
    let too_wide_mid = Word256 { l0: 0, l1: 0, l2: 1 << 32, l3: 0 };
    assert!(matches!(encode_with_flag_set(1, &too_wide_mid), Err(SolveError::EncodingRange)));
}

#[test]
fn payload_initial_word_is_locked() {
    let p = Payload { first_value: 12, second_value: w64(34) };
    let w = p.initial_word();
    let rec = decode(&w);
    assert_eq!(rec.short_field, 12);
    assert_eq!(rec.medium_field, w64(34));
    assert!(!rec.flag_bit);
}

#[test]
fn compute_slot_matches_keccak_of_concatenation() {
    let key = Word256 { l0: 77, l1: 0, l2: 5, l3: 0 };
    let base = w64(2);
    let slot = compute_slot(&key, &base);
    let mut buf = [0u8; 64];
    buf[..32].copy_from_slice(&key.to_be_bytes());
    buf[32..].copy_from_slice(&base.to_be_bytes());
    let digest = alloy::primitives::keccak256(buf);
    assert_eq!(slot.to_be_bytes().as_slice(), digest.as_slice());
}

#[test]
fn compute_slot_is_deterministic_and_separates_keys() {
    let base = w64(2);
    let a1 = compute_slot(&w64(5), &base);
    let a2 = compute_slot(&w64(5), &base);
    assert_eq!(a1, a2);
    let b = compute_slot(&w64(6), &base);
    assert_ne!(a1, b);
}

#[test]
fn solved_query_payload_layout() {
    let keys = vec![w64(0), w64(4), w64(9)];
    let payload = encode_solved_query(&keys);
    assert_eq!(payload.len(), 4 + 32 + 32 + 3 * 32);
    let selector = alloy::primitives::keccak256(b"isSolved(uint256[])");
    assert_eq!(&payload[..4], &selector.as_slice()[..4]);
    // the offset word says the array head starts right after it
    assert_eq!(payload[4 + 31], 32);
    // the length word holds the key count
    assert_eq!(payload[4 + 32 + 31], 3);
    // each key appears big-endian, in visit order
    assert_eq!(payload[4 + 64 + 31], 0);
    assert_eq!(payload[4 + 96 + 31], 4);
    assert_eq!(payload[4 + 128 + 31], 9);
}

#[test]
fn outcome_verdicts() {
    let mut yes = vec![0u8; 32];
    yes[31] = 1;
    assert!(interpret_outcome(&CallOutcome::Success { output: yes }));
    let no = vec![0u8; 32];
    assert!(!interpret_outcome(&CallOutcome::Success { output: no }));
    let short = vec![1u8; 31];
    assert!(!interpret_outcome(&CallOutcome::Success { output: short }));
    assert!(!interpret_outcome(&CallOutcome::Revert { output: vec![1u8; 32] }));
    assert!(!interpret_outcome(&CallOutcome::Halt { reason: 5 }));
}
