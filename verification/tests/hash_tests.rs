use block_divider::basis::BlockDivisionBasis;
use block_divider::basis::BucketDef;
use block_divider::basis::ParticipantDef;
use block_divider::hash::u64_to_decimal;
use block_divider::requests::DeleteStateRequest;
use block_divider::requests::BlockDivisionStateRequestBody;
use block_divider::requests::GetStateRequest;
use block_divider::requests::GetUserViewRequest;
use block_divider::requests::SetOpenRoundRequest;
use block_divider::requests::UserView;

fn basis(bucket_name: &str) -> BlockDivisionBasis {
    BlockDivisionBasis::create(
        vec![BucketDef {
            name: bucket_name.to_string(),
            available_slots: 2,
            available_ancillaries: vec!["cabin".to_string()],
        }],
        vec![ParticipantDef::create(
            "someone".to_string(),
            "someone@example.com".to_string(),
            vec![1],
        )],
        vec!["the round".to_string()],
    )
    .expect("Should work.")
}

/// The content hash is a stable identifier: equal content gives equal
/// hashes, and changed content changes the hash.
#[test]
fn basis_hash_is_stable_and_content_sensitive() {
    let a = basis("week one");
    let b = basis("week one");
    let c = basis("week two");
    assert_eq!(a.get_hash(), b.get_hash());
    assert_ne!(a.get_hash(), c.get_hash());
}

#[test]
fn decimal_rendering_matches_known_values() {
    assert_eq!(u64_to_decimal(0), "0");
    assert_eq!(u64_to_decimal(7), "7");
    assert_eq!(u64_to_decimal(1203), "1203");
    assert_eq!(u64_to_decimal(u64::MAX), "18446744073709551615");
}

/// The view hash is deterministic per (participant, division) and differs
/// between participants; it is a non-empty decimal string.
#[test]
fn user_view_hash_keys_the_view() {
    let v1 = UserView::create(4, "Division A".to_string());
    let v1b = UserView::create(4, "Division A".to_string());
    let v2 = UserView::create(5, "Division A".to_string());
    let v3 = UserView::create(4, "Division B".to_string());
    assert_eq!(v1.get_hash(), v1b.get_hash());
    assert_ne!(v1.get_hash(), v2.get_hash());
    assert_ne!(v1.get_hash(), v3.get_hash());
    assert!(v1.get_hash().chars().all(|c| c.is_ascii_digit()));
    assert_eq!(v1.get_user_id(), 4);
    assert_eq!(v1.get_state_id(), "Division A");
}

#[test]
fn request_getters_return_their_fields() {
    let g = GetStateRequest {
        id: "alpha".to_string(),
    };
    assert_eq!(g.get_id(), "alpha");
    let d = DeleteStateRequest {
        id: "beta".to_string(),
    };
    assert_eq!(d.get_id(), "beta");
    let s = SetOpenRoundRequest {
        id: "gamma".to_string(),
        round: Some(2),
    };
    assert_eq!(s.get_id(), "gamma");
    assert_eq!(s.get_round(), &Some(2));
    let b = BlockDivisionStateRequestBody {
        user_id: "u".to_string(),
        division_id: "d".to_string(),
    };
    assert_eq!(b.get_user_id(), "u");
    assert_eq!(b.get_division_id(), "d");
    let v = GetUserViewRequest {
        hash: "123".to_string(),
    };
    assert_eq!(v.get_hash(), "123");
}
