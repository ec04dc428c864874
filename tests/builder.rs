use fellowship_proposal::builder::{build_calls, build_proposal, Member, Policy, Proposal};
use fellowship_proposal::call::Call;
use fellowship_proposal::codec::{encode, encoded_size};
use fellowship_proposal::present::{call_data_hex, proposal_hash_hex};

fn member(name: &str, byte: u8, rank: u8) -> Member {
    Member { name: name.to_string(), account_id: [byte; 32], rank }
}

fn parts(p: &Proposal) -> (u32, &Call, u32) {
    match &p.call {
        Call::Propose { threshold, proposal, length_bound } => (*threshold, proposal.as_ref(), *length_bound),
        other => panic!("not a proposal: {:?}", other),
    }
}

fn count(calls: &[Call]) -> (usize, usize) {
    let adds = calls.iter().filter(|c| matches!(c, Call::AddMember { .. })).count();
    let promotes = calls.iter().filter(|c| matches!(c, Call::PromoteMember { .. })).count();
    (adds, promotes)
}

#[test]
fn single_member_of_rank_zero_gives_one_add_member() {
    let members = vec![member("A", 0, 0)];
    let policy = Policy::fellowship();
    let p = build_proposal(&members, &policy);
    let (threshold, batch, length_bound) = parts(&p);
    assert_eq!(threshold, 2);
    assert_eq!(batch, &Call::Batch { calls: vec![Call::AddMember { who: [0; 32] }] });
    assert_eq!(length_bound as usize, encode(batch).len());
    assert_eq!(length_bound, 38);
    assert_eq!(
        call_data_hex(&p),
        "0f0208180004160000000000000000000000000000000000000000000000000000000000000000000098"
    );
    assert_eq!(proposal_hash_hex(&p), "d537566e8d77886c7790e3648a12921b9bfda7ac552759e3ec736c402ec91d7d");
    let again = build_proposal(&members, &policy);
    assert_eq!(call_data_hex(&again), call_data_hex(&p));
    assert_eq!(proposal_hash_hex(&again), proposal_hash_hex(&p));
}

#[test]
fn rank_eight_member_gets_six_promotions() {
    let members = vec![member("B", 0x11, 8)];
    let p = build_proposal(&members, &Policy::fellowship());
    let (_, batch, length_bound) = parts(&p);
    match batch {
        Call::Batch { calls } => {
            assert_eq!(calls.len(), 7);
            assert_eq!(calls[0], Call::AddMember { who: [0x11; 32] });
            for c in &calls[1..] {
                assert_eq!(c, &Call::PromoteMember { who: [0x11; 32] });
            }
        },
        other => panic!("not a batch: {:?}", other),
    }
    assert_eq!(length_bound, 248);
    assert_eq!(proposal_hash_hex(&p), "c990332fe378eb9fef194eb9b9a910a384614198075cecd14f6674b3e55d26f6");
}

#[test]
fn excluded_member_gets_no_calls_whatever_its_rank() {
    let members = vec![member("gavofyork", 1, 7), member("C", 2, 1)];
    let calls = build_calls(&members, &Policy::fellowship());
    assert_eq!(calls, vec![Call::AddMember { who: [2; 32] }, Call::PromoteMember { who: [2; 32] }]);
}

#[test]
fn promotions_are_min_of_rank_and_limit() {
    let policy = Policy::fellowship();
    for rank in 0..=20u8 {
        let calls = build_calls(&vec![member("D", 3, rank)], &policy);
        assert_eq!(count(&calls), (1, rank.min(6) as usize));
    }
}

#[test]
fn calls_follow_roster_order() {
    let members = vec![member("E", 4, 1), member("F", 5, 0), member("G", 6, 2)];
    let calls = build_calls(&members, &Policy::fellowship());
    assert_eq!(
        calls,
        vec![
            Call::AddMember { who: [4; 32] },
            Call::PromoteMember { who: [4; 32] },
            Call::AddMember { who: [5; 32] },
            Call::AddMember { who: [6; 32] },
            Call::PromoteMember { who: [6; 32] },
            Call::PromoteMember { who: [6; 32] },
        ]
    );
}

#[test]
fn policy_values_can_be_varied() {
    let policy = Policy { excluded_name: "E".to_string(), promotion_limit: 2, threshold: 9 };
    let members = vec![member("E", 4, 1), member("F", 5, 5)];
    let p = build_proposal(&members, &policy);
    let (threshold, batch, length_bound) = parts(&p);
    assert_eq!(threshold, 9);
    match batch {
        Call::Batch { calls } => assert_eq!(count(calls), (1, 2)),
        other => panic!("not a batch: {:?}", other),
    }
    assert_eq!(length_bound as usize, encoded_size(batch));
}

#[test]
fn empty_roster_gives_empty_batch() {
    let p = build_proposal(&Vec::new(), &Policy::fellowship());
    let (_, batch, length_bound) = parts(&p);
    assert_eq!(batch, &Call::Batch { calls: Vec::new() });
    assert_eq!(length_bound, 3);
    assert_eq!(proposal_hash_hex(&p).len(), 64);
}
