use block_divider::basis::BlockDivisionBasis;
use block_divider::basis::BucketDef;
use block_divider::basis::DivisionError;
use block_divider::basis::ParticipantDef;
use block_divider::selections::Selection;
use block_divider::state::BlockDivisionState;

fn bucket(cap: usize) -> BucketDef {
    BucketDef {
        name: "the bucket".to_string(),
        available_slots: cap,
        available_ancillaries: vec!["the ancillary".to_string()],
    }
}

fn participant(picks: Vec<usize>) -> ParticipantDef {
    ParticipantDef::create(
        "someone".to_string(),
        "someone@example.com".to_string(),
        picks,
    )
}

fn tiny_state() -> BlockDivisionState {
    let basis = BlockDivisionBasis::create(
        vec![bucket(1)],
        vec![participant(vec![1, 1])],
        vec!["first".to_string(), "second".to_string()],
    )
    .expect("Should work.");
    BlockDivisionState::new(&basis)
}

fn one_pick(bucket: usize, ancillaries: Vec<usize>) -> Vec<Option<Selection>> {
    vec![Some(Selection {
        bucket_index: bucket,
        ancillaries,
        state: None,
    })]
}

#[test]
fn empty_lists_are_an_invalid_basis() {
    assert!(matches!(
        BlockDivisionBasis::create(vec![], vec![participant(vec![1])], vec!["r".to_string()]),
        Err(DivisionError::InvalidBasis)
    ));
    assert!(matches!(
        BlockDivisionBasis::create(vec![bucket(1)], vec![], vec!["r".to_string()]),
        Err(DivisionError::InvalidBasis)
    ));
    assert!(matches!(
        BlockDivisionBasis::create(vec![bucket(1)], vec![participant(vec![])], vec![]),
        Err(DivisionError::InvalidBasis)
    ));
}

#[test]
fn pick_quota_must_cover_every_round() {
    assert!(matches!(
        BlockDivisionBasis::create(
            vec![bucket(1)],
            vec![participant(vec![1])],
            vec!["first".to_string(), "second".to_string()],
        ),
        Err(DivisionError::InvalidBasis)
    ));
}

#[test]
fn submission_requires_an_open_round() {
    let mut state = tiny_state();
    assert!(matches!(
        state.set_selections_for_current_round(0, one_pick(0, vec![])),
        Err(DivisionError::RoundClosed)
    ));
}

#[test]
fn unknown_participant_is_rejected() {
    let mut state = tiny_state();
    state.set_open_round(Some(0)).expect("Should work.");
    assert!(matches!(
        state.set_selections_for_current_round(7, one_pick(0, vec![])),
        Err(DivisionError::UnknownParticipant)
    ));
}

#[test]
fn pick_count_must_match_quota() {
    let mut state = tiny_state();
    state.set_open_round(Some(0)).expect("Should work.");
    assert!(matches!(
        state.set_selections_for_current_round(0, vec![]),
        Err(DivisionError::InvalidPickCount)
    ));
}

#[test]
fn unknown_bucket_is_rejected() {
    let mut state = tiny_state();
    state.set_open_round(Some(0)).expect("Should work.");
    assert!(matches!(
        state.set_selections_for_current_round(0, one_pick(3, vec![])),
        Err(DivisionError::UnknownBucket)
    ));
    // The submission aborted before any mutation.
    assert!(state.selections.state[0][0][0].is_none());
}

#[test]
fn unknown_ancillary_is_rejected() {
    let mut state = tiny_state();
    state.set_open_round(Some(0)).expect("Should work.");
    assert!(matches!(
        state.set_selections_for_current_round(0, one_pick(0, vec![5])),
        Err(DivisionError::UnknownAncillary)
    ));
}

#[test]
fn open_round_index_must_exist() {
    let mut state = tiny_state();
    assert_eq!(
        state.set_open_round(Some(2)),
        Err(DivisionError::InvalidRoundIndex)
    );
    assert_eq!(state.get_current_open_round(), &None);
    assert_eq!(state.set_open_round(Some(1)), Ok(()));
    assert_eq!(state.get_current_open_round(), &Some(1));
    assert_eq!(state.set_open_round(None), Ok(()));
    assert_eq!(state.get_current_open_round(), &None);
}

#[test]
fn submission_for_closed_round_changes_nothing() {
    let mut state = tiny_state();
    state.set_open_round(Some(0)).expect("Should work.");
    state
        .set_selections_for_current_round(0, one_pick(0, vec![]))
        .expect("Should work.");
    state.set_open_round(None).expect("Should work.");
    let before = format!("{:?}", state.bucket_states[0].get_state(0).designations);
    assert!(matches!(
        state.set_selections_for_current_round(0, one_pick(0, vec![])),
        Err(DivisionError::RoundClosed)
    ));
    let after = format!("{:?}", state.bucket_states[0].get_state(0).designations);
    assert_eq!(before, after);
}
