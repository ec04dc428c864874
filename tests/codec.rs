use fellowship_proposal::call::Call;
use fellowship_proposal::codec::{encode, encode_to, encoded_size};

fn add(byte: u8) -> Call {
    Call::AddMember { who: [byte; 32] }
}

#[test]
fn add_member_encodes_pallet_call_address_and_account() {
    let bytes = encode(&add(0x11));
    let mut expected = vec![22u8, 0, 0];
    expected.extend_from_slice(&[0x11; 32]);
    assert_eq!(bytes, expected);
}

#[test]
fn promote_member_uses_its_own_call_index() {
    let bytes = encode(&Call::PromoteMember { who: [7; 32] });
    assert_eq!(&bytes[..3], &[22u8, 1, 0]);
    assert_eq!(&bytes[3..], &[7u8; 32]);
}

#[test]
fn empty_batch_is_header_and_zero_count() {
    let batch = Call::Batch { calls: Vec::new() };
    assert_eq!(encode(&batch), vec![24u8, 0, 0]);
    assert_eq!(encoded_size(&batch), 3);
}

#[test]
fn batch_of_sixty_four_uses_two_byte_count() {
    let calls: Vec<Call> = (0..64).map(|_| add(1)).collect();
    let batch = Call::Batch { calls };
    let bytes = encode(&batch);
    assert_eq!(&bytes[..4], &[24u8, 0, 0x01, 0x01]);
    assert_eq!(bytes.len(), 4 + 64 * 35);
    assert_eq!(encoded_size(&batch), bytes.len());
}

#[test]
fn propose_encodes_threshold_proposal_then_length_bound() {
    let batch = Call::Batch { calls: vec![add(0)] };
    let call = Call::Propose { threshold: 2, proposal: Box::new(batch), length_bound: 38 };
    let mut expected = vec![15u8, 2, 8, 24, 0, 4, 22, 0, 0];
    expected.extend_from_slice(&[0u8; 32]);
    expected.push(0x98);
    assert_eq!(encode(&call), expected);
    assert_eq!(encoded_size(&call), 42);
}

#[test]
fn compact_widths_follow_the_value() {
    let four = Call::Propose { threshold: 63, proposal: Box::new(Call::Batch { calls: Vec::new() }), length_bound: 16384 };
    assert_eq!(encode(&four), vec![15u8, 2, 0xfc, 24, 0, 0, 0x02, 0x00, 0x01, 0x00]);
    assert_eq!(encoded_size(&four), 10);
    let five = Call::Propose { threshold: 64, proposal: Box::new(Call::Batch { calls: Vec::new() }), length_bound: 1 << 30 };
    assert_eq!(encode(&five), vec![15u8, 2, 0x01, 0x01, 24, 0, 0, 0x03, 0x00, 0x00, 0x00, 0x40]);
    assert_eq!(encoded_size(&five), 12);
}

#[test]
fn encoded_size_matches_length_of_nested_tree() {
    let inner = || Call::Batch { calls: vec![add(1), Call::PromoteMember { who: [2; 32] }] };
    let outer = Call::Batch {
        calls: vec![inner(), add(3), Call::Propose { threshold: 5, proposal: Box::new(inner()), length_bound: 70000 }],
    };
    assert_eq!(encoded_size(&outer), encode(&outer).len());
}

#[test]
fn encoding_twice_gives_identical_bytes() {
    let call = Call::Batch { calls: vec![add(9), Call::PromoteMember { who: [9; 32] }] };
    assert_eq!(encode(&call), encode(&call));
    let same = Call::Batch { calls: vec![add(9), Call::PromoteMember { who: [9; 32] }] };
    assert_eq!(encode(&call), encode(&same));
}

#[test]
fn encode_to_appends_after_existing_bytes() {
    let mut out = vec![0xaau8];
    encode_to(&add(0), &mut out);
    assert_eq!(out.len(), 36);
    assert_eq!(&out[..4], &[0xaau8, 22, 0, 0]);
}
